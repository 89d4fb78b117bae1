//! Loading a model: where on the device each of its weights lies, and what has to
//! be copied there first.

use vstd::prelude::*;

use crate::cuda::{Addr, Base, Cmd, Cuda, Dev, Stop, StopView, Work};
use crate::layout::{gather_phase, phase_matrix, swap_channels, swapped};
use crate::model::{ConvRef, FfcBlock, Model, Step};
use crate::ops::{tap_count, taps_of, DBn, DConv, DConvT, DFfc, DSpectral, Phases};
use crate::staging::{
    bn_modules, modules, push_keeps_tensors, sorted, stage_window, staged, Packed, Staging,
};
use crate::text::{cat, dec, decimal_usize, same_text};
use crate::weights::{missing, shape_product, texts, StoreView, WeightStore};

verus! {

broadcast use crate::cuda::group_work;

// ---------------------------------------------------------------------------
// Folded BatchNorms
// ---------------------------------------------------------------------------

/// One BatchNorm folded to a scale and a shift per channel, by the bits of the
/// floats.
pub struct Fold {
    pub scale: Vec<u32>,
    pub shift: Vec<u32>,
}

/// The tensors that a BatchNorm is folded from.
pub struct BnInputs {
    pub weight: Vec<u32>,
    pub bias: Vec<u32>,
    pub mean: Vec<u32>,
    pub var: Vec<u32>,
}

/// Why a BatchNorm cannot be folded: the first of its tensors that is missing, or
/// one that is shorter than the weight.
pub open spec fn unfoldable(store: StoreView, module: Seq<char>) -> Option<StopView> {
    let weight = module + ".weight"@;
    let bias = module + ".bias"@;
    let mean = module + ".running_mean"@;
    let var = module + ".running_var"@;
    if !store.has(weight) {
        Some(StopView::Fault(missing(weight)))
    } else if !store.has(bias) {
        Some(StopView::Fault(missing(bias)))
    } else if !store.has(mean) {
        Some(StopView::Fault(missing(mean)))
    } else if !store.has(var) {
        Some(StopView::Fault(missing(var)))
    } else {
        let n = store.bits(weight).len();
        if store.bits(bias).len() < n || store.bits(mean).len() < n || store.bits(var).len() < n {
            Some(StopView::Misfit)
        } else {
            None
        }
    }
}

fn read_bits(store: &WeightStore, module: &str, part: &str) -> (r: Result<Vec<u32>, Stop>)
    requires
        store.valid(),
    ensures
        match r {
            Ok(v) => store@.has(module@ + part@) && v@ == store@.bits(module@ + part@),
            Err(e) => !store@.has(module@ + part@) && e@ == StopView::Fault(
                missing(module@ + part@),
            ),
        },
{
    let name = cat(module, part);
    match store.f32_bits(name.as_str()) {
        Ok(v) => Ok(v),
        Err(e) => Err(Stop::Fault(e)),
    }
}

/// The tensors of one BatchNorm.
pub fn bn_inputs(store: &WeightStore, module: &str) -> (r: Result<BnInputs, Stop>)
    requires
        store.valid(),
    ensures
        match r {
            Ok(b) => {
                &&& unfoldable(store@, module@) is None
                &&& b.weight@ == store@.bits(module@ + ".weight"@)
                &&& b.bias@ == store@.bits(module@ + ".bias"@)
                &&& b.mean@ == store@.bits(module@ + ".running_mean"@)
                &&& b.var@ == store@.bits(module@ + ".running_var"@)
            },
            Err(e) => unfoldable(store@, module@) == Some(e@),
        },
{
    let weight = match read_bits(store, module, ".weight") {
        Ok(v) => v,
        Err(e) => {
            return Err(e);
        },
    };
    let bias = match read_bits(store, module, ".bias") {
        Ok(v) => v,
        Err(e) => {
            return Err(e);
        },
    };
    let mean = match read_bits(store, module, ".running_mean") {
        Ok(v) => v,
        Err(e) => {
            return Err(e);
        },
    };
    let var = match read_bits(store, module, ".running_var") {
        Ok(v) => v,
        Err(e) => {
            return Err(e);
        },
    };
    let n = weight.len();
    if bias.len() < n || mean.len() < n || var.len() < n {
        return Err(Stop::Misfit);
    }
    Ok(BnInputs { weight, bias, mean, var })
}

/// The first `n` folds, packed: scale and shift in turn.
pub open spec fn packed_folds(folds: Seq<Fold>, n: nat) -> Packed
    decreases n,
{
    if n == 0 {
        Packed::empty()
    } else {
        packed_folds(folds, (n - 1) as nat).push(folds[n - 1].scale@).push(folds[n - 1].shift@)
    }
}

/// Whether there is room for `len` floats more.
pub open spec fn has_room(p: Packed, len: nat) -> bool {
    (p.host.len() + len + 3) * 4 <= usize::MAX
}

/// Whether the first `n` folds can be packed.
pub open spec fn folds_fit(folds: Seq<Fold>, n: nat) -> bool
    decreases n,
{
    if n == 0 {
        true
    } else {
        let p = packed_folds(folds, (n - 1) as nat);
        &&& folds_fit(folds, (n - 1) as nat)
        &&& has_room(p, folds[n - 1].scale@.len())
        &&& has_room(p.push(folds[n - 1].scale@), folds[n - 1].shift@.len())
    }
}

proof fn lemma_folds_fit(folds: Seq<Fold>, n: nat, m: nat)
    requires
        n <= m,
        folds_fit(folds, m),
    ensures
        folds_fit(folds, n),
    decreases m,
{
    if n < m {
        lemma_folds_fit(folds, n, (m - 1) as nat);
    }
}

/// The BatchNorms of a model, folded and packed.
pub struct BnTable {
    pub names: Vec<String>,
    pub staging: Staging,
    /// Why packing came to an end.
    pub stop: Option<Stop>,
}

/// The folded BatchNorms as a value.
pub ghost struct Table {
    pub names: Seq<Seq<char>>,
    pub packed: Packed,
    pub stop: Option<StopView>,
}

impl View for BnTable {
    type V = Table;

    open spec fn view(&self) -> Table {
        Table {
            names: texts(self.names@),
            packed: self.staging@,
            stop: match self.stop {
                Some(s) => Some(s@),
                None => None,
            },
        }
    }
}

/// The table of the BatchNorms in a store, given the folds of the first of them.
/// Where a module has no fold, the reason is that it cannot be folded.
pub open spec fn bn_table(store: StoreView, folds: Seq<Fold>) -> Table {
    let names = sorted(modules(store.index.order));
    if folds.len() < names.len() {
        Table {
            names,
            packed: Packed::empty(),
            stop: match unfoldable(store, names[folds.len() as int]) {
                Some(s) => Some(s),
                None => Some(StopView::Misfit),
            },
        }
    } else if !folds_fit(folds, names.len()) {
        Table { names, packed: Packed::empty(), stop: Some(StopView::Misfit) }
    } else {
        Table { names, packed: packed_folds(folds, names.len()), stop: None }
    }
}

/// Pack the folds, which are those of the modules that `bn_modules` lists, in that
/// order, up to the first that cannot be folded.
pub fn stage_bns(store: &WeightStore, folds: &Vec<Fold>) -> (t: BnTable)
    requires
        store.valid(),
    ensures
        t@ == bn_table(store@, folds@),
{
    let names = bn_modules(&store.index.order);
    let n = names.len();
    assert(texts(names@).len() == n);
    if folds.len() < n {
        let stop = match bn_inputs(store, names[folds.len()].as_str()) {
            Ok(_) => Stop::Misfit,
            Err(e) => e,
        };
        return BnTable { names, staging: Staging::new(), stop: Some(stop) };
    }
    let mut staging = Staging::new();
    let mut i: usize = 0;
    while i < n
        invariant
            i <= n <= folds@.len(),
            n == names@.len(),
            texts(names@) == sorted(modules(store@.index.order)),
            folds_fit(folds@, i as nat),
            staging@ == packed_folds(folds@, i as nat),
        decreases n - i,
    {
        if !room_for(&staging, folds[i].scale.len()) {
            proof {
                lemma_unfit(folds@, (i + 1) as nat, n as nat);
            }
            return BnTable { names, staging: Staging::new(), stop: Some(Stop::Misfit) };
        }
        staging.push(&folds[i].scale);
        if !room_for(&staging, folds[i].shift.len()) {
            proof {
                lemma_unfit(folds@, (i + 1) as nat, n as nat);
            }
            return BnTable { names, staging: Staging::new(), stop: Some(Stop::Misfit) };
        }
        staging.push(&folds[i].shift);
        i += 1;
    }
    BnTable { names, staging, stop: None }
}

proof fn lemma_unfit(folds: Seq<Fold>, n: nat, m: nat)
    requires
        n <= m,
        !folds_fit(folds, n),
    ensures
        !folds_fit(folds, m),
{
    if folds_fit(folds, m) {
        lemma_folds_fit(folds, n, m);
    }
}

fn room_for(s: &Staging, len: usize) -> (r: bool)
    ensures
        r == has_room(s@, len as nat),
{
    let most: usize = usize::MAX / 4;
    let at = s.host.len();
    most >= 3 && at <= most - 3 && len <= most - 3 - at
}

/// The packed folds are aligned, inside the buffer and apart, there are two
/// records per module, and each reads back what was folded.
pub proof fn folds_read_back(folds: Seq<Fold>, n: nat)
    requires
        n <= folds.len(),
        folds_fit(folds, n),
    ensures
        packed_folds(folds, n).sound(),
        packed_folds(folds, n).records.len() == 2 * n,
        forall|i: int|
            #![trigger folds[i]]
            0 <= i < n ==> packed_folds(folds, n).tensor(2 * i) == folds[i].scale@ && packed_folds(
                folds,
                n,
            ).tensor(2 * i + 1) == folds[i].shift@,
    decreases n,
{
    if n > 0 {
        let m = (n - 1) as nat;
        folds_read_back(folds, m);
        let p = packed_folds(folds, m);
        push_keeps_tensors(p, folds[m as int].scale@);
        let q = p.push(folds[m as int].scale@);
        push_keeps_tensors(q, folds[m as int].shift@);
        let r = q.push(folds[m as int].shift@);
        assert(r == packed_folds(folds, n));
        assert forall|i: int| #![trigger folds[i]] 0 <= i < n implies r.tensor(2 * i)
            == folds[i].scale@ && r.tensor(2 * i + 1) == folds[i].shift@ by {
            if i < m {
                assert(p.tensor(2 * i) == folds[i].scale@);
                assert(q.tensor(2 * i) == p.tensor(2 * i));
                assert(q.tensor(2 * i + 1) == p.tensor(2 * i + 1));
                assert(r.tensor(2 * i) == q.tensor(2 * i));
                assert(r.tensor(2 * i + 1) == q.tensor(2 * i + 1));
            } else {
                assert(q.tensor(2 * i) == folds[i].scale@);
                assert(r.tensor(2 * i) == q.tensor(2 * i));
            }
        }
    }
}

/// The last place of a name.
pub open spec fn last_index(names: Seq<Seq<char>>, x: Seq<char>) -> Option<int>
    decreases names.len(),
{
    if names.len() == 0 {
        None
    } else if names.last() == x {
        Some(names.len() - 1)
    } else {
        last_index(names.drop_last(), x)
    }
}

fn find_last(names: &Vec<String>, x: &str) -> (r: Option<usize>)
    ensures
        match r {
            Some(i) => last_index(texts(names@), x@) == Some(i as int) && i < names@.len(),
            None => last_index(texts(names@), x@) is None,
        },
{
    let ghost all = texts(names@);
    let mut i: usize = names.len();
    assert(all.take(i as int) =~= all);
    while i > 0
        invariant
            i <= names@.len(),
            all == texts(names@),
            last_index(all, x@) == last_index(all.take(i as int), x@),
        decreases i,
    {
        i -= 1;
        assert(all.take(i + 1).drop_last() =~= all.take(i as int));
        assert(all.take(i + 1).last() == names@[i as int]@);
        if same_text(names[i].as_str(), x) {
            return Some(i);
        }
    }
    None
}

/// After copying the staged tensors to the device, which is done once.
pub open spec fn committed(p: Work, t: Table) -> Work {
    match t.stop {
        Some(s) => p.halt(s),
        None => if p.staged || !p.going() {
            p
        } else {
            let n = t.packed.host.len() as usize;
            let q = p.push(Cmd::StageMalloc { floats: n });
            Work {
                data: q.data + t.packed.host,
                staged: true,
                ..q.push_if(
                    n > 0,
                    Cmd::StageCopy { from: q.data.len() as usize, floats: n },
                )
            }
        },
    }
}

fn stage_commit(c: &mut Cuda, t: &BnTable)
    ensures
        final(c)@ == committed(old(c)@, t@),
{
    match &t.stop {
        Some(Stop::Misfit) => {
            c.misfit();
        },
        Some(Stop::Fault(e)) => {
            c.fault(e.clone());
        },
        None => {
            if c.staged || c.stop.is_some() {
                return;
            }
            let n = t.staging.host.len();
            let from = c.data.len();
            c.push(Cmd::StageMalloc { floats: n });
            c.push_if(n > 0, Cmd::StageCopy { from, floats: n });
            let ghost before = c@;
            let ghost host = t.staging.host@;
            let mut i: usize = 0;
            assert(before.data + host.take(0) =~= before.data);
            while i < n
                invariant
                    i <= n,
                    n == host.len(),
                    host == t.staging.host@,
                    c@ == (Work { data: before.data + host.take(i as int), ..before }),
                decreases n - i,
            {
                c.data.push(t.staging.host[i]);
                assert(c.data@ =~= before.data + host.take(i + 1));
                i += 1;
            }
            assert(host.take(n as int) =~= host);
            c.staged = true;
        },
    }
}

// ---------------------------------------------------------------------------
// Tensors of the blob
// ---------------------------------------------------------------------------

/// After copying the whole blob to the device, which is done once.
pub open spec fn blob_there(p: Work, len: nat) -> Work {
    if p.blob || !p.going() {
        p
    } else if len + 3 <= usize::MAX {
        Work {
            blob: true,
            ..p.push(Cmd::BlobMalloc { floats: ((len + 3) / 4) as usize }).push(
                Cmd::BlobCopy { bytes: len as usize },
            )
        }
    } else {
        p.halt(StopView::Misfit)
    }
}

/// The window of a tensor in the copy of the blob.
pub open spec fn blob_window(offset: usize, nbytes: usize) -> Dev {
    Dev { addr: Addr { base: Base::Blob, offset }, len: nbytes / 4, owned: false }
}

/// A tensor of the blob, and the work of bringing it to the device.
pub open spec fn blob_tensor(p: Work, store: StoreView, name: Seq<char>) -> (Work, Dev) {
    if store.has(name) {
        let t = store.tensor(name);
        (blob_there(p, store.bytes.len()), blob_window(t.offset, t.nbytes))
    } else {
        (p.halt(StopView::Fault(missing(name))), blob_window(0, 0))
    }
}

/// A tensor's window lies inside the copy of the blob.
pub proof fn blob_window_inside(store: &WeightStore, name: Seq<char>)
    requires
        store.valid(),
        store@.has(name),
    ensures
        ({
            let t = store@.tensor(name);
            let d = blob_window(t.offset, t.nbytes);
            &&& d.addr.offset + d.len * 4 <= store@.bytes.len()
            &&& d.len == shape_product(t.shape)
        }),
{
    store.tensor_inside(name);
}

/// Copy the weight blob to the device, once.
pub fn blob_arena(c: &mut Cuda, len: usize)
    ensures
        final(c)@ == blob_there(old(c)@, len as nat),
{
    if c.blob || c.stop.is_some() {
        return;
    }
    if len > usize::MAX - 3 {
        c.misfit();
        return;
    }
    c.push(Cmd::BlobMalloc { floats: (len + 3) / 4 });
    c.push(Cmd::BlobCopy { bytes: len });
    c.blob = true;
}

/// A window into the copy of the blob for a tensor that is used as it is.
pub fn blob_view(c: &mut Cuda, store: &WeightStore, name: &str) -> (d: Dev)
    ensures
        (final(c)@, d) == blob_tensor(old(c)@, store@, name@),
{
    match store.info(name) {
        Ok(t) => {
            blob_arena(c, store.blob.len());
            Dev {
                addr: Addr { base: Base::Blob, offset: t.offset },
                len: t.nbytes / 4,
                owned: false,
            }
        },
        Err(e) => {
            c.fault(e);
            Dev { addr: Addr { base: Base::Blob, offset: 0 }, len: 0, owned: false }
        },
    }
}

// ---------------------------------------------------------------------------
// Layers
// ---------------------------------------------------------------------------

/// A convolution of no channels.
pub open spec fn no_conv() -> DConv {
    DConv {
        w: blob_window(0, 0),
        bias: None,
        cin: 0,
        cout: 0,
        kh: 0,
        kw: 0,
        w_t: None,
    }
}

fn blank_conv() -> (r: DConv)
    ensures
        r == no_conv(),
{
    DConv {
        w: Dev { addr: Addr { base: Base::Blob, offset: 0 }, len: 0, owned: false },
        bias: None,
        cin: 0,
        cout: 0,
        kh: 0,
        kw: 0,
        w_t: None,
    }
}

/// The bias of a convolution, where there is one of the right length.
pub open spec fn conv_bias(p: Work, store: StoreView, prefix: Seq<char>, cout: usize) -> (
    Work,
    Option<Dev>,
) {
    let name = prefix + ".bias"@;
    if store.has(name) && shape_product(store.tensor(name).shape) == cout {
        let (q, d) = blob_tensor(p, store, name);
        (q, Some(d))
    } else {
        (p, None)
    }
}

/// The reordered weights of a 7x7 convolution of at most eight outputs.
pub open spec fn conv_swapped(
    p: Work,
    store: StoreView,
    name: Seq<char>,
    cout: usize,
    cin: usize,
    kh: usize,
    kw: usize,
) -> (Work, Option<Dev>) {
    if kh == 7 && kw == 7 && cout <= 8 {
        let w = store.bits(name);
        if cin * cout * 49 <= w.len() {
            (
                p.upload(swapped(w, cout as int, cin as int, 49)),
                Some(p.fresh(w.len() as usize)),
            )
        } else {
            (p.halt(StopView::Misfit), None)
        }
    } else {
        (p, None)
    }
}

/// A convolution `[cout][cin][kh][kw]` with its bias.
#[verifier::opaque]
pub open spec fn conv_loaded(p: Work, store: StoreView, prefix: Seq<char>) -> (Work, DConv) {
    let name = prefix + ".weight"@;
    if !store.has(name) {
        (p.halt(StopView::Fault(missing(name))), no_conv())
    } else {
        let shape = store.tensor(name).shape;
        if shape.len() < 4 {
            (p.halt(StopView::Misfit), no_conv())
        } else {
            let (p1, w) = blob_tensor(p, store, name);
            let (p2, bias) = conv_bias(p1, store, prefix, shape[0]);
            let (p3, w_t) = conv_swapped(p2, store, name, shape[0], shape[1], shape[2], shape[3]);
            (
                p3,
                DConv {
                    w,
                    bias,
                    cin: shape[1],
                    cout: shape[0],
                    kh: shape[2],
                    kw: shape[3],
                    w_t,
                },
            )
        }
    }
}

fn load_bias(c: &mut Cuda, store: &WeightStore, prefix: &str, cout: usize) -> (r: Option<Dev>)
    requires
        store.valid(),
    ensures
        (final(c)@, r) == conv_bias(old(c)@, store@, prefix@, cout),
{
    let name = cat(prefix, ".bias");
    match store.info(name.as_str()) {
        Ok(t) => {
            proof {
                store.tensor_inside(name@);
            }
            if t.numel() == cout {
                return Some(blob_view(c, store, name.as_str()));
            }
            None
        },
        Err(_) => None,
    }
}

fn load_swapped(
    c: &mut Cuda,
    store: &WeightStore,
    name: &str,
    cout: usize,
    cin: usize,
    kh: usize,
    kw: usize,
) -> (r: Option<Dev>)
    requires
        store.valid(),
        store@.has(name@),
    ensures
        (final(c)@, r) == conv_swapped(old(c)@, store@, name@, cout, cin, kh, kw),
{
    if !(kh == 7 && kw == 7 && cout <= 8) {
        return None;
    }
    let w = match store.f32_bits(name) {
        Ok(w) => w,
        Err(_) => {
            return None;
        },
    };
    let len = w.len();
    let fits = match cin.checked_mul(cout) {
        Some(n) => match n.checked_mul(49) {
            Some(n) => n <= len,
            None => false,
        },
        None => false,
    };
    proof {
        assert(cin * cout <= cin * cout * 49) by (nonlinear_arith);
    }
    if !fits {
        c.misfit();
        return None;
    }
    let t = swap_channels(&w, cout, cin, 49);
    Some(c.upload(&t))
}

/// Load a convolution. Its weight is the same in the blob and on the device, so it
/// is addressed inside the copy of the blob.
pub fn load_conv(c: &mut Cuda, store: &WeightStore, prefix: &str) -> (r: DConv)
    requires
        store.valid(),
    ensures
        (final(c)@, r) == conv_loaded(old(c)@, store@, prefix@),
{
    reveal(conv_loaded);
    let name = cat(prefix, ".weight");
    let info = match store.info(name.as_str()) {
        Ok(t) => t,
        Err(e) => {
            c.fault(e);
            return blank_conv();
        },
    };
    if info.shape.len() < 4 {
        c.misfit();
        return blank_conv();
    }
    let (cout, cin, kh, kw) = (info.shape[0], info.shape[1], info.shape[2], info.shape[3]);
    let w = blob_view(c, store, name.as_str());
    let bias = load_bias(c, store, prefix, cout);
    let w_t = load_swapped(c, store, name.as_str(), cout, cin, kh, kw);
    DConv { w, bias, cin, cout, kh, kw, w_t }
}

/// A BatchNorm of no channels.
pub open spec fn no_bn() -> DBn {
    DBn { scale: blob_window(0, 0), shift: blob_window(0, 0), channels: 0 }
}

fn blank_bn() -> (r: DBn)
    ensures
        r == no_bn(),
{
    let none = Dev { addr: Addr { base: Base::Blob, offset: 0 }, len: 0, owned: false };
    DBn { scale: none, shift: none, channels: 0 }
}

/// The complaint about a BatchNorm of another number of channels.
pub open spec fn channel_complaint(
    prefix: Seq<char>,
    scale: usize,
    shift: usize,
    channels: usize,
) -> Seq<char> {
    "BatchNorm "@ + prefix + ": staged "@ + dec(scale as nat) + " scale / "@ + dec(shift as nat)
        + " shift values, expected "@ + dec(channels as nat)
}

/// A BatchNorm by its module's name. The last module of a name counts.
#[verifier::opaque]
pub open spec fn bn_loaded(p: Work, t: Table, prefix: Seq<char>, channels: usize) -> (Work, DBn) {
    let q = committed(p, t);
    if !q.going() {
        (q, no_bn())
    } else {
        match last_index(t.names, prefix) {
            None => (
                q.halt(StopView::Fault("BatchNorm "@ + prefix + " was not staged"@)),
                no_bn(),
            ),
            Some(i) => {
                let (scale, shift) = (t.packed.records[2 * i], t.packed.records[2 * i + 1]);
                if scale.len == channels && shift.len == channels {
                    (
                        q,
                        DBn { scale: stage_window(scale), shift: stage_window(shift), channels },
                    )
                } else {
                    (
                        q.halt(
                            StopView::Fault(
                                channel_complaint(prefix, scale.len, shift.len, channels),
                            ),
                        ),
                        no_bn(),
                    )
                }
            },
        }
    }
}

/// Every name has its two records.
pub open spec fn table_complete(t: Table) -> bool {
    t.stop is None ==> t.packed.records.len() == 2 * t.names.len()
}

/// The table of a store is complete.
pub proof fn bn_table_complete(store: StoreView, folds: Seq<Fold>)
    ensures
        table_complete(bn_table(store, folds)),
{
    let t = bn_table(store, folds);
    if t.stop is None {
        folds_read_back(folds, t.names.len());
    }
}

/// Load a BatchNorm from the staged ones, which are copied to the device when the
/// first is asked for.
pub fn load_bn(c: &mut Cuda, t: &BnTable, prefix: &str, channels: usize) -> (r: DBn)
    requires
        table_complete(t@),
    ensures
        (final(c)@, r) == bn_loaded(old(c)@, t@, prefix@, channels),
{
    reveal(bn_loaded);
    stage_commit(c, t);
    if c.stop.is_some() {
        return blank_bn();
    }
    match find_last(&t.names, prefix) {
        Some(i) => {
            assert(t@.packed.records.len() == 2 * t@.names.len());
            assert(t.staging.records.len() == t@.packed.records.len());
            let scale = t.staging.records[2 * i];
            let shift = t.staging.records[2 * i + 1];
            if scale.len == channels && shift.len == channels {
                return DBn { scale: staged(&scale), shift: staged(&shift), channels };
            }
            let mut e = cat("BatchNorm ", prefix);
            e.append(": staged ");
            e.append(decimal_usize(scale.len).as_str());
            e.append(" scale / ");
            e.append(decimal_usize(shift.len).as_str());
            e.append(" shift values, expected ");
            e.append(decimal_usize(channels).as_str());
            c.fault(e);
            blank_bn()
        },
        None => {
            let mut e = cat("BatchNorm ", prefix);
            e.append(" was not staged");
            c.fault(e);
            blank_bn()
        },
    }
}

// ---------------------------------------------------------------------------
// Steps
// ---------------------------------------------------------------------------

/// The name of a numbered module.
pub open spec fn module_name(index: usize) -> Seq<char> {
    "model."@ + dec(index as nat)
}

fn module_string(index: usize) -> (r: String)
    ensures
        r@ == module_name(index),
{
    cat("model.", decimal_usize(index).as_str())
}

/// The module that a block's normalisations stand in.
pub open spec fn block_name(b: FfcBlock) -> Seq<char> {
    if b.sub == 0 {
        module_name(b.index)
    } else if b.sub == 1 {
        module_name(b.index) + ".conv1"@
    } else {
        module_name(b.index) + ".conv2"@
    }
}

fn block_string(b: &FfcBlock) -> (r: String)
    ensures
        r@ == block_name(*b),
{
    let mut out = module_string(b.index);
    if b.sub == 1 {
        out.append(".conv1");
    } else if b.sub != 0 {
        out.append(".conv2");
    }
    out
}

/// A convolution below a block, where there is one.
pub open spec fn conv_ref_loaded(
    p: Work,
    store: StoreView,
    ffc: Seq<char>,
    r: ConvRef,
) -> (Work, Option<DConv>) {
    match r {
        ConvRef::Absent => (p, None),
        ConvRef::Present { name } => {
            let (q, cv) = conv_loaded(p, store, ffc + "."@ + name@);
            (q, Some(cv))
        },
    }
}

fn load_conv_ref(c: &mut Cuda, store: &WeightStore, ffc: &str, r: &ConvRef) -> (cv: Option<DConv>)
    requires
        store.valid(),
    ensures
        (final(c)@, cv) == conv_ref_loaded(old(c)@, store@, ffc@, *r),
{
    match r {
        ConvRef::Absent => None,
        ConvRef::Present { name } => {
            let mut prefix = cat(ffc, ".");
            prefix.append(name.as_str());
            Some(load_conv(c, store, prefix.as_str()))
        },
    }
}

/// A spectral branch of `out_global` outputs.
#[verifier::opaque]
pub open spec fn spectral_loaded(
    p: Work,
    store: StoreView,
    t: Table,
    prefix: Seq<char>,
    out_global: usize,
    stride: usize,
) -> (Work, DSpectral) {
    let half = out_global / 2;
    let (p1, conv1) = conv_loaded(p, store, prefix + ".conv1.0"@);
    let (p2, bn1) = bn_loaded(p1, t, prefix + ".conv1.1"@, half);
    let (p3, fu_conv) = conv_loaded(p2, store, prefix + ".fu.conv_layer"@);
    let (p4, fu_bn) = bn_loaded(p3, t, prefix + ".fu.bn"@, (2 * half) as usize);
    let (p5, conv2) = conv_loaded(p4, store, prefix + ".conv2"@);
    (p5, DSpectral { conv1, bn1, fu_conv, fu_bn, conv2, half, stride })
}

fn load_spectral(
    c: &mut Cuda,
    store: &WeightStore,
    t: &BnTable,
    prefix: &str,
    out_global: usize,
    stride: usize,
) -> (r: DSpectral)
    requires
        store.valid(),
        table_complete(t@),
    ensures
        (final(c)@, r) == spectral_loaded(old(c)@, store@, t@, prefix@, out_global, stride),
{
    reveal(spectral_loaded);
    let half: usize = out_global / 2;
    let conv1 = load_conv(c, store, cat(prefix, ".conv1.0").as_str());
    let bn1 = load_bn(c, t, cat(prefix, ".conv1.1").as_str(), half);
    let fu_conv = load_conv(c, store, cat(prefix, ".fu.conv_layer").as_str());
    let fu_bn = load_bn(c, t, cat(prefix, ".fu.bn").as_str(), 2 * half);
    let conv2 = load_conv(c, store, cat(prefix, ".conv2").as_str());
    DSpectral { conv1, bn1, fu_conv, fu_bn, conv2, half, stride }
}

/// A normalisation, where there is one.
pub open spec fn bn_if_loaded(
    p: Work,
    t: Table,
    on: bool,
    prefix: Seq<char>,
    channels: usize,
) -> (Work, Option<DBn>) {
    if on {
        let (q, bn) = bn_loaded(p, t, prefix, channels);
        (q, Some(bn))
    } else {
        (p, None)
    }
}

fn load_bn_if(c: &mut Cuda, t: &BnTable, on: bool, prefix: &str, channels: usize) -> (r: Option<DBn>)
    requires
        table_complete(t@),
    ensures
        (final(c)@, r) == bn_if_loaded(old(c)@, t@, on, prefix@, channels),
{
    if on {
        Some(load_bn(c, t, prefix, channels))
    } else {
        None
    }
}

/// A block: its spectral branch, its convolutions and then its normalisations.
#[verifier::opaque]
pub open spec fn ffc_loaded(p: Work, store: StoreView, t: Table, b: FfcBlock) -> (Work, DFfc) {
    let own = block_name(b);
    let ffc = own + ".ffc"@;
    let (p1, spectral) = if b.g2g {
        let (q, sp) = spectral_loaded(p, store, t, ffc + ".convg2g"@, b.out_global, b.stride);
        (q, Some(sp))
    } else {
        (p, None)
    };
    let (p2, l2l) = conv_ref_loaded(p1, store, ffc, b.l2l);
    let (p3, l2g) = conv_ref_loaded(p2, store, ffc, b.l2g);
    let (p4, g2l) = conv_ref_loaded(p3, store, ffc, b.g2l);
    let (p5, bn_l) = bn_if_loaded(p4, t, b.bn_local, own + ".bn_l"@, b.out_local);
    let (p6, bn_g) = bn_if_loaded(p5, t, b.bn_global, own + ".bn_g"@, b.out_global);
    (
        p6,
        DFfc {
            kernel: b.kernel,
            stride: b.stride,
            pad: b.pad,
            reflect: b.reflection,
            in_local: b.in_local,
            in_global: b.in_global,
            out_local: b.out_local,
            out_global: b.out_global,
            l2l,
            l2g,
            g2l,
            bn_l,
            bn_g,
            spectral,
        },
    )
}

/// Load a block.
pub fn load_dffc(c: &mut Cuda, store: &WeightStore, t: &BnTable, b: &FfcBlock) -> (r: DFfc)
    requires
        store.valid(),
        table_complete(t@),
    ensures
        (final(c)@, r) == ffc_loaded(old(c)@, store@, t@, *b),
{
    reveal(ffc_loaded);
    let own = block_string(b);
    let ffc = cat(own.as_str(), ".ffc");
    let mut spectral: Option<DSpectral> = None;
    if b.g2g {
        let prefix = cat(ffc.as_str(), ".convg2g");
        spectral = Some(load_spectral(c, store, t, prefix.as_str(), b.out_global, b.stride));
    }
    let l2l = load_conv_ref(c, store, ffc.as_str(), &b.l2l);
    let l2g = load_conv_ref(c, store, ffc.as_str(), &b.l2g);
    let g2l = load_conv_ref(c, store, ffc.as_str(), &b.g2l);
    let bn_l = load_bn_if(c, t, b.bn_local, cat(own.as_str(), ".bn_l").as_str(), b.out_local);
    let bn_g = load_bn_if(c, t, b.bn_global, cat(own.as_str(), ".bn_g").as_str(), b.out_global);
    DFfc {
        kernel: b.kernel,
        stride: b.stride,
        pad: b.pad,
        reflect: b.reflection,
        in_local: b.in_local,
        in_global: b.in_global,
        out_local: b.out_local,
        out_global: b.out_global,
        l2l,
        l2g,
        g2l,
        bn_l,
        bn_g,
        spectral,
    }
}

/// Whether the weights of a phase can be gathered.
pub open spec fn phase_gathers(w: Seq<u32>, cin: usize, cout: usize, ph: nat) -> bool {
    &&& cin * cout * 9 <= w.len()
    &&& cin * tap_count(ph) <= usize::MAX
}

/// One phase's matrix on the device.
pub open spec fn phase_loaded(p: Work, w: Seq<u32>, cin: usize, cout: usize, ph: nat) -> (
    Work,
    Dev,
) {
    if phase_gathers(w, cin, cout, ph) {
        let m = phase_matrix(w, cin as int, cout as int, ph);
        (p.upload(m), p.fresh(m.len() as usize))
    } else {
        (p.halt(StopView::Misfit), blob_window(0, 0))
    }
}

fn load_phase(c: &mut Cuda, w: &Vec<u32>, cin: usize, cout: usize, ph: usize) -> (d: Dev)
    ensures
        (final(c)@, d) == phase_loaded(old(c)@, w@, cin, cout, ph as nat),
{
    let len = w.len();
    let fits = match cin.checked_mul(cout) {
        Some(n) => match n.checked_mul(9) {
            Some(n) => n <= len && cin.checked_mul(taps_of(ph)).is_some(),
            None => false,
        },
        None => false,
    };
    proof {
        assert(cin * cout <= cin * cout * 9) by (nonlinear_arith);
    }
    if !fits {
        c.misfit();
        return Dev { addr: Addr { base: Base::Blob, offset: 0 }, len: 0, owned: false };
    }
    let m = gather_phase(w, cin, cout, ph);
    c.upload(&m)
}

/// A transposed convolution `[cin][cout][3][3]`: the four phases' matrices, and
/// the weight and the bias in the blob.
#[verifier::opaque]
pub open spec fn convt_loaded(p: Work, store: StoreView, prefix: Seq<char>) -> (Work, DConvT) {
    let name = prefix + ".weight"@;
    if !store.has(name) {
        (p.halt(StopView::Fault(missing(name))), no_convt())
    } else {
        let shape = store.tensor(name).shape;
        if shape.len() < 2 {
            (p.halt(StopView::Misfit), no_convt())
        } else {
            let w = store.bits(name);
            let (cin, cout) = (shape[0], shape[1]);
            let (p1, p00) = phase_loaded(p, w, cin, cout, 0);
            let (p2, p01) = phase_loaded(p1, w, cin, cout, 1);
            let (p3, p10) = phase_loaded(p2, w, cin, cout, 2);
            let (p4, p11) = phase_loaded(p3, w, cin, cout, 3);
            let (p5, weight) = blob_tensor(p4, store, name);
            let (p6, bias) = blob_tensor(p5, store, prefix + ".bias"@);
            (
                p6,
                DConvT {
                    w: weight,
                    bias,
                    cin,
                    cout,
                    phases: Some(Phases { p00, p01, p10, p11 }),
                },
            )
        }
    }
}

/// A transposed convolution of no channels.
pub open spec fn no_convt() -> DConvT {
    DConvT { w: blob_window(0, 0), bias: blob_window(0, 0), cin: 0, cout: 0, phases: None }
}

fn blank_convt() -> (r: DConvT)
    ensures
        r == no_convt(),
{
    let none = Dev { addr: Addr { base: Base::Blob, offset: 0 }, len: 0, owned: false };
    DConvT { w: none, bias: none, cin: 0, cout: 0, phases: None }
}

fn load_convt(c: &mut Cuda, store: &WeightStore, prefix: &str) -> (r: DConvT)
    requires
        store.valid(),
    ensures
        (final(c)@, r) == convt_loaded(old(c)@, store@, prefix@),
{
    reveal(convt_loaded);
    let name = cat(prefix, ".weight");
    let w = match store.f32_bits(name.as_str()) {
        Ok(w) => w,
        Err(e) => {
            c.fault(e);
            return blank_convt();
        },
    };
    let info = match store.info(name.as_str()) {
        Ok(t) => t,
        Err(e) => {
            c.fault(e);
            return blank_convt();
        },
    };
    if info.shape.len() < 2 {
        c.misfit();
        return blank_convt();
    }
    let (cin, cout) = (info.shape[0], info.shape[1]);
    let p00 = load_phase(c, &w, cin, cout, 0);
    let p01 = load_phase(c, &w, cin, cout, 1);
    let p10 = load_phase(c, &w, cin, cout, 2);
    let p11 = load_phase(c, &w, cin, cout, 3);
    let weight = blob_view(c, store, name.as_str());
    let bias = blob_view(c, store, cat(prefix, ".bias").as_str());
    DConvT { w: weight, bias, cin, cout, phases: Some(Phases { p00, p01, p10, p11 }) }
}

/// A step with its weights on the device.
#[derive(Clone, Copy, PartialEq, Eq, Structural, Debug)]
pub enum DStep {
    ReflectPad(usize),
    Ffc(DFfc),
    Res(DFfc, DFfc),
    Concat,
    Upsample(DConvT, DBn),
    OutConv(DConv),
}

/// One step.
#[verifier::opaque]
pub open spec fn step_loaded(p: Work, store: StoreView, t: Table, s: Step) -> (Work, DStep) {
    match s {
        Step::ReflectPad(n) => (p, DStep::ReflectPad(n)),
        Step::Ffc(b) => {
            let (q, f) = ffc_loaded(p, store, t, b);
            (q, DStep::Ffc(f))
        },
        Step::ResBlock(rb) => {
            let (p1, f1) = ffc_loaded(p, store, t, rb.conv1);
            let (p2, f2) = ffc_loaded(p1, store, t, rb.conv2);
            (p2, DStep::Res(f1, f2))
        },
        Step::Concat => (p, DStep::Concat),
        Step::Upsample(u) => {
            let (p1, cv) = convt_loaded(p, store, module_name(u.index));
            let (p2, bn) = bn_loaded(p1, t, module_name(u.bn_index), u.cout);
            (p2, DStep::Upsample(cv, bn))
        },
        Step::OutConv(o) => {
            let (q, cv) = conv_loaded(p, store, module_name(o.index));
            (q, DStep::OutConv(cv))
        },
    }
}

/// The steps from the first on, as far as loading goes.
pub open spec fn steps_loaded(p: Work, store: StoreView, t: Table, steps: Seq<Step>) -> (
    Work,
    Seq<DStep>,
)
    decreases steps.len(),
{
    if steps.len() == 0 {
        (p, Seq::empty())
    } else {
        let (q, done) = steps_loaded(p, store, t, steps.drop_last());
        if q.going() {
            let (r, s) = step_loaded(q, store, t, steps.last());
            (r, done.push(s))
        } else {
            (q, done)
        }
    }
}

proof fn lemma_loading_stops(p: Work, store: StoreView, t: Table, steps: Seq<Step>, n: int)
    requires
        0 <= n <= steps.len(),
        !steps_loaded(p, store, t, steps.take(n)).0.going(),
    ensures
        steps_loaded(p, store, t, steps) == steps_loaded(p, store, t, steps.take(n)),
    decreases steps.len() - n,
{
    if n == steps.len() {
        assert(steps.take(n) =~= steps);
    } else {
        assert(steps.take(n + 1).drop_last() =~= steps.take(n));
        lemma_loading_stops(p, store, t, steps, n + 1);
    }
}

fn load_step(c: &mut Cuda, store: &WeightStore, t: &BnTable, s: &Step) -> (r: DStep)
    requires
        store.valid(),
        table_complete(t@),
    ensures
        (final(c)@, r) == step_loaded(old(c)@, store@, t@, *s),
{
    reveal(step_loaded);
    match s {
        Step::ReflectPad(n) => DStep::ReflectPad(*n),
        Step::Ffc(b) => DStep::Ffc(load_dffc(c, store, t, b)),
        Step::ResBlock(rb) => {
            let f1 = load_dffc(c, store, t, &rb.conv1);
            let f2 = load_dffc(c, store, t, &rb.conv2);
            DStep::Res(f1, f2)
        },
        Step::Concat => DStep::Concat,
        Step::Upsample(u) => {
            let cv = load_convt(c, store, module_string(u.index).as_str());
            let bn = load_bn(c, t, module_string(u.bn_index).as_str(), u.cout);
            DStep::Upsample(cv, bn)
        },
        Step::OutConv(o) => DStep::OutConv(
            load_conv(c, store, module_string(o.index).as_str()),
        ),
    }
}

/// Load the steps of a model, up to the first that cannot be loaded.
pub fn load_steps(c: &mut Cuda, store: &WeightStore, t: &BnTable, model: &Model) -> (r: Vec<DStep>)
    requires
        store.valid(),
        table_complete(t@),
    ensures
        (final(c)@, r@) == steps_loaded(old(c)@, store@, t@, model.steps@),
{
    let ghost start = c@;
    let ghost steps = model.steps@;
    let mut out: Vec<DStep> = Vec::new();
    let mut i: usize = 0;
    assert(steps.take(0) =~= Seq::empty());
    while i < model.steps.len()
        invariant
            i <= model.steps@.len(),
            steps == model.steps@,
            start == old(c)@,
            store.valid(),
            table_complete(t@),
            (c@, out@) == steps_loaded(start, store@, t@, steps.take(i as int)),
        decreases model.steps@.len() - i,
    {
        if c.stop.is_some() {
            proof {
                lemma_loading_stops(start, store@, t@, steps, i as int);
            }
            return out;
        }
        assert(steps.take(i + 1).drop_last() =~= steps.take(i as int));
        let s = load_step(c, store, t, &model.steps[i]);
        out.push(s);
        i += 1;
    }
    assert(steps.take(i as int) =~= steps);
    out
}

// ---------------------------------------------------------------------------
// Giving the weights up
// ---------------------------------------------------------------------------

/// After giving up what a convolution owns.
pub open spec fn conv_freed(p: Work, cv: Option<DConv>) -> Work {
    match cv {
        Some(cv) => match cv.w_t {
            Some(d) => p.free(d),
            None => p,
        },
        None => p,
    }
}

fn free_conv(c: &mut Cuda, cv: &Option<DConv>)
    ensures
        final(c)@ == conv_freed(old(c)@, *cv),
{
    if let Some(cv) = cv {
        if let Some(d) = &cv.w_t {
            c.free(d);
        }
    }
}

/// After giving up what a block owns.
#[verifier::opaque]
pub open spec fn ffc_freed(p: Work, f: DFfc) -> Work {
    let q = conv_freed(conv_freed(conv_freed(p, f.l2l), f.l2g), f.g2l);
    match f.spectral {
        Some(sp) => conv_freed(
            conv_freed(conv_freed(q, Some(sp.conv1)), Some(sp.fu_conv)),
            Some(sp.conv2),
        ),
        None => q,
    }
}

fn free_dffc(c: &mut Cuda, f: &DFfc)
    ensures
        final(c)@ == ffc_freed(old(c)@, *f),
{
    reveal(ffc_freed);
    free_conv(c, &f.l2l);
    free_conv(c, &f.l2g);
    free_conv(c, &f.g2l);
    if let Some(sp) = &f.spectral {
        free_conv(c, &Some(sp.conv1));
        free_conv(c, &Some(sp.fu_conv));
        free_conv(c, &Some(sp.conv2));
    }
}

/// After giving up what a step owns.
pub open spec fn step_freed(p: Work, s: DStep) -> Work {
    match s {
        DStep::Ffc(f) => ffc_freed(p, f),
        DStep::Res(f, g) => ffc_freed(ffc_freed(p, f), g),
        DStep::Upsample(cv, _) => match cv.phases {
            Some(w) => p.free(w.p00).free(w.p01).free(w.p10).free(w.p11),
            None => p,
        },
        DStep::OutConv(cv) => conv_freed(p, Some(cv)),
        _ => p,
    }
}

fn free_step(c: &mut Cuda, s: &DStep)
    ensures
        final(c)@ == step_freed(old(c)@, *s),
{
    match s {
        DStep::Ffc(f) => {
            free_dffc(c, f);
        },
        DStep::Res(f, g) => {
            free_dffc(c, f);
            free_dffc(c, g);
        },
        DStep::Upsample(cv, _) => {
            if let Some(w) = &cv.phases {
                c.free(&w.p00);
                c.free(&w.p01);
                c.free(&w.p10);
                c.free(&w.p11);
            }
        },
        DStep::OutConv(cv) => {
            free_conv(c, &Some(*cv));
        },
        _ => {},
    }
}

/// After giving up what the steps own, in their order.
pub open spec fn steps_freed(p: Work, steps: Seq<DStep>) -> Work
    decreases steps.len(),
{
    if steps.len() == 0 {
        p
    } else {
        step_freed(steps_freed(p, steps.drop_last()), steps.last())
    }
}

/// Give up what the steps own.
pub fn free_steps(c: &mut Cuda, steps: &Vec<DStep>)
    ensures
        final(c)@ == steps_freed(old(c)@, steps@),
{
    let ghost start = c@;
    let mut i: usize = 0;
    assert(steps@.take(0) =~= Seq::empty());
    while i < steps.len()
        invariant
            i <= steps@.len(),
            c@ == steps_freed(start, steps@.take(i as int)),
        decreases steps@.len() - i,
    {
        assert(steps@.take(i + 1).drop_last() =~= steps@.take(i as int));
        free_step(c, &steps[i]);
        i += 1;
    }
    assert(steps@.take(i as int) =~= steps@);
}

} // verus!
