use lama_inpaint::cuda::{Addr, Base, Cmd, Cuda, Dev, Flags, Stop};
use lama_inpaint::engine::run;
use lama_inpaint::layout::{gather_phase, swap_channels};
use lama_inpaint::loader::{
    blob_view, bn_inputs, load_bn, load_conv, load_steps, stage_bns, DStep, Fold,
};
use lama_inpaint::model::{ConvRef, FfcBlock, Model, OutConv, ResBlock, Step, Upsample};
use lama_inpaint::staging::{bn_modules, Record, Staging};
use lama_inpaint::weights::WeightStore;

fn flags() -> Flags {
    Flags {
        convt_gather: false,
        profile_sub: false,
        profile_sync: false,
        fft_host: false,
        profile_ops: false,
        profile: false,
        dump_after: None,
    }
}

/// A blob of consecutive numbers and the index of the tensors in it.
fn store_of(tensors: &[(&str, &[usize])]) -> (String, Vec<u8>) {
    let mut text = String::from("[");
    let mut data: Vec<u8> = Vec::new();
    for (name, shape) in tensors {
        let n: usize = shape.iter().product();
        let extents: Vec<String> = shape.iter().map(|x| x.to_string()).collect();
        text.push_str(&format!(
            "{{\"name\": \"{name}\", \"shape\": [{}], \"offset\": {}, \"nbytes\": {}}}\n",
            extents.join(", "),
            data.len(),
            n * 4
        ));
        for i in 0..n {
            data.extend_from_slice(&(i as u32).to_le_bytes());
        }
    }
    text.push(']');
    (text, data)
}

fn fold(n: usize) -> Fold {
    Fold { scale: (0..n as u32).collect(), shift: (100..100 + n as u32).collect() }
}

#[test]
fn channels_are_swapped() {
    // [2][3][2] to [3][2][2].
    let w: Vec<u32> = (0..12).collect();
    let t = swap_channels(&w, 2, 3, 2);
    assert_eq!(t, vec![0, 1, 6, 7, 2, 3, 8, 9, 4, 5, 10, 11]);
    assert_eq!(swap_channels(&t, 3, 2, 2), w);
    let mut longer = w.clone();
    longer.push(5);
    assert_eq!(swap_channels(&longer, 2, 3, 2)[12], 0);
}

#[test]
fn phases_gather_their_taps() {
    // One input, one output: the kernel's taps are 0 to 8.
    let w: Vec<u32> = (0..9).collect();
    assert_eq!(gather_phase(&w, 1, 1, 0), vec![4]);
    assert_eq!(gather_phase(&w, 1, 1, 1), vec![3, 5]);
    assert_eq!(gather_phase(&w, 1, 1, 2), vec![1, 7]);
    assert_eq!(gather_phase(&w, 1, 1, 3), vec![0, 2, 6, 8]);
    // Two inputs, two outputs: row `co` holds the inputs' taps in turn.
    let w: Vec<u32> = (0..36).collect();
    assert_eq!(gather_phase(&w, 2, 2, 1), vec![3, 5, 21, 23, 12, 14, 30, 32]);
}

#[test]
fn staged_tensors_are_aligned() {
    let mut s = Staging::new();
    assert_eq!(s.push(&vec![1, 2, 3]), 0);
    assert_eq!(s.push(&vec![]), 1);
    assert_eq!(s.push(&vec![4, 5, 6, 7]), 2);
    assert_eq!(s.push(&vec![8]), 3);
    assert_eq!(s.host, vec![1, 2, 3, 0, 4, 5, 6, 7, 8, 0, 0, 0]);
    assert_eq!(s.records, vec![
        Record { offset: 0, len: 3 },
        Record { offset: 16, len: 0 },
        Record { offset: 16, len: 4 },
        Record { offset: 32, len: 1 },
    ]);
}

#[test]
fn batch_norms_are_listed_in_order() {
    let order: Vec<String> = [
        "m.2.running_var",
        "m.10.running_var",
        "m.1.weight",
        "m.1.running_var.running_var",
        "running_var",
        "é.running_var",
    ]
    .iter()
    .map(|s| s.to_string())
    .collect();
    assert_eq!(bn_modules(&order), vec!["m.1", "m.10", "m.2", "é"]);
}

#[test]
fn fold_inputs_are_read_together() {
    let (text, data) = store_of(&[
        ("m.weight", &[2]),
        ("m.bias", &[2]),
        ("m.running_mean", &[2]),
        ("m.running_var", &[3]),
        ("n.weight", &[2]),
        ("n.bias", &[1]),
        ("n.running_mean", &[2]),
        ("n.running_var", &[2]),
    ]);
    let s = WeightStore::open("i", &text, &data, true).unwrap();
    let b = bn_inputs(&s, "m").ok().unwrap();
    assert_eq!((b.weight, b.bias, b.mean, b.var), (
        vec![0, 1],
        vec![0, 1],
        vec![0, 1],
        vec![0, 1, 2],
    ));
    assert!(matches!(bn_inputs(&s, "n"), Err(Stop::Misfit)));
    match bn_inputs(&s, "o") {
        Err(Stop::Fault(e)) => assert_eq!(e, "missing tensor in weight blob: o.weight"),
        _ => panic!("found"),
    }
}

#[test]
fn blob_is_copied_once() {
    let (text, data) = store_of(&[("a", &[3]), ("b", &[2, 2])]);
    let s = WeightStore::open("i", &text, &data, true).unwrap();
    let mut c = Cuda::new(flags());
    let a = blob_view(&mut c, &s, "a");
    let b = blob_view(&mut c, &s, "b");
    assert_eq!(a, Dev { addr: Addr { base: Base::Blob, offset: 0 }, len: 3, owned: false });
    assert_eq!(b, Dev { addr: Addr { base: Base::Blob, offset: 12 }, len: 4, owned: false });
    assert_eq!(c.cmds, vec![Cmd::BlobMalloc { floats: 7 }, Cmd::BlobCopy { bytes: 28 }]);
    blob_view(&mut c, &s, "z");
    match &c.stop {
        Some(Stop::Fault(e)) => assert_eq!(e, "missing tensor in weight blob: z"),
        _ => panic!("went on"),
    }
}

#[test]
fn convolutions_take_a_bias_of_their_length() {
    let (text, data) = store_of(&[
        ("p.weight", &[2, 3, 1, 1]),
        ("p.bias", &[2]),
        ("q.weight", &[2, 3, 1, 1]),
        ("q.bias", &[3]),
        ("r.weight", &[2, 3]),
    ]);
    let s = WeightStore::open("i", &text, &data, true).unwrap();
    let mut c = Cuda::new(flags());
    let p = load_conv(&mut c, &s, "p");
    assert_eq!((p.cout, p.cin, p.kh, p.kw), (2, 3, 1, 1));
    assert!(p.bias.is_some() && p.w_t.is_none());
    assert!(load_conv(&mut c, &s, "q").bias.is_none());
    assert!(c.stop.is_none());
    load_conv(&mut c, &s, "r");
    assert!(matches!(c.stop, Some(Stop::Misfit)));
    let mut c = Cuda::new(flags());
    load_conv(&mut c, &s, "none");
    match &c.stop {
        Some(Stop::Fault(e)) => assert_eq!(e, "missing tensor in weight blob: none.weight"),
        _ => panic!("went on"),
    }
}

#[test]
fn wide_kernels_are_reordered_once() {
    let (text, data) = store_of(&[("p.weight", &[2, 3, 7, 7]), ("q.weight", &[9, 1, 7, 7])]);
    let s = WeightStore::open("i", &text, &data, true).unwrap();
    let mut c = Cuda::new(flags());
    let p = load_conv(&mut c, &s, "p");
    assert_eq!(p.w_t.unwrap().len, 294);
    assert_eq!(c.data.len(), 294);
    // The second output's first input channel follows the first's.
    assert_eq!(c.data[49], 3 * 49);
    assert!(load_conv(&mut c, &s, "q").w_t.is_none());
}

#[test]
fn batch_norms_are_found_by_name() {
    let names: &[(&str, &[usize])] = &[
        ("b.weight", &[2]),
        ("b.bias", &[2]),
        ("b.running_mean", &[2]),
        ("b.running_var", &[2]),
        ("a.weight", &[3]),
        ("a.bias", &[3]),
        ("a.running_mean", &[3]),
        ("a.running_var", &[3]),
    ];
    let (text, data) = store_of(names);
    let s = WeightStore::open("i", &text, &data, true).unwrap();
    // Folds in the order of the module names.
    let t = stage_bns(&s, &vec![fold(3), fold(2)]);
    assert!(t.stop.is_none());
    let mut c = Cuda::new(flags());
    let b = load_bn(&mut c, &t, "b", 2);
    assert_eq!(b.scale.addr, Addr { base: Base::Staging, offset: 32 });
    assert_eq!(b.shift.addr, Addr { base: Base::Staging, offset: 48 });
    let a = load_bn(&mut c, &t, "a", 3);
    assert_eq!((a.scale.len, a.shift.len, a.channels), (3, 3, 3));
    assert_eq!(c.cmds, vec![
        Cmd::StageMalloc { floats: 16 },
        Cmd::StageCopy { from: 0, floats: 16 },
    ]);
    assert_eq!(&c.data[..8], &[0, 1, 2, 0, 100, 101, 102, 0]);
    load_bn(&mut c, &t, "a", 4);
    match &c.stop {
        Some(Stop::Fault(e)) => assert_eq!(
            e,
            "BatchNorm a: staged 3 scale / 3 shift values, expected 4"
        ),
        _ => panic!("went on"),
    }
    let mut c = Cuda::new(flags());
    load_bn(&mut c, &t, "zz", 4);
    match &c.stop {
        Some(Stop::Fault(e)) => assert_eq!(e, "BatchNorm zz was not staged"),
        _ => panic!("went on"),
    }
}

#[test]
fn unfoldable_modules_stop_the_loading() {
    let (text, data) = store_of(&[("a.running_var", &[2])]);
    let s = WeightStore::open("i", &text, &data, true).unwrap();
    let t = stage_bns(&s, &vec![]);
    match &t.stop {
        Some(Stop::Fault(e)) => assert_eq!(e, "missing tensor in weight blob: a.weight"),
        _ => panic!("folded"),
    }
    let mut c = Cuda::new(flags());
    load_bn(&mut c, &t, "a", 2);
    assert!(matches!(c.stop, Some(Stop::Fault(_))));
    assert!(c.cmds.is_empty());
}

fn ffc(index: usize, sub: usize) -> FfcBlock {
    FfcBlock {
        index,
        sub,
        kernel: 3,
        stride: 1,
        pad: 1,
        reflection: true,
        in_local: 4,
        in_global: 0,
        out_local: 4,
        out_global: 0,
        l2l: ConvRef::Present { name: "convl2l".to_string() },
        l2g: ConvRef::Absent,
        g2l: ConvRef::Absent,
        g2g: false,
        bn_local: true,
        bn_global: false,
    }
}

fn small_model() -> (Model, String, Vec<u8>, Vec<Fold>) {
    let (text, data) = store_of(&[
        ("model.1.ffc.convl2l.weight", &[4, 4, 3, 3]),
        ("model.1.bn_l.weight", &[4]),
        ("model.1.bn_l.bias", &[4]),
        ("model.1.bn_l.running_mean", &[4]),
        ("model.1.bn_l.running_var", &[4]),
        ("model.2.conv1.ffc.convl2l.weight", &[4, 4, 3, 3]),
        ("model.2.conv1.bn_l.weight", &[4]),
        ("model.2.conv1.bn_l.bias", &[4]),
        ("model.2.conv1.bn_l.running_mean", &[4]),
        ("model.2.conv1.bn_l.running_var", &[4]),
        ("model.2.conv2.ffc.convl2l.weight", &[4, 4, 3, 3]),
        ("model.2.conv2.bn_l.weight", &[4]),
        ("model.2.conv2.bn_l.bias", &[4]),
        ("model.2.conv2.bn_l.running_mean", &[4]),
        ("model.2.conv2.bn_l.running_var", &[4]),
        ("model.3.weight", &[4, 2, 3, 3]),
        ("model.3.bias", &[2]),
        ("model.4.weight", &[2]),
        ("model.4.bias", &[2]),
        ("model.4.running_mean", &[2]),
        ("model.4.running_var", &[2]),
        ("model.5.weight", &[3, 2, 7, 7]),
        ("model.5.bias", &[3]),
    ]);
    let steps = vec![
        Step::Ffc(ffc(1, 0)),
        Step::ResBlock(ResBlock { conv1: ffc(2, 1), conv2: ffc(2, 2) }),
        Step::Upsample(Upsample { index: 3, bn_index: 4, cout: 2 }),
        Step::ReflectPad(3),
        Step::OutConv(OutConv { index: 5 }),
    ];
    let folds = vec![fold(4), fold(4), fold(4), fold(2)];
    (Model { steps }, text, data, folds)
}

/// Performs a program on names alone: no block is used before it is allocated or
/// after it is freed, and each arena is made and filled once. Returns what is left
/// allocated.
fn play(cmds: &[Cmd]) -> usize {
    let mut live = std::collections::HashSet::new();
    let mut results = 0;
    let (mut made, mut filled) = ([false; 2], [false; 2]);
    for cmd in cmds {
        match cmd {
            Cmd::BlobMalloc { .. } => assert!(!std::mem::replace(&mut made[0], true)),
            Cmd::BlobCopy { .. } => {
                assert!(made[0] && !std::mem::replace(&mut filled[0], true));
            }
            Cmd::StageMalloc { .. } => assert!(!std::mem::replace(&mut made[1], true)),
            Cmd::StageCopy { .. } => {
                assert!(made[1] && !std::mem::replace(&mut filled[1], true));
            }
            Cmd::Malloc { id, .. } => assert!(live.insert(*id)),
            Cmd::Free { id, .. } => assert!(live.remove(id)),
            Cmd::Launch { call, .. } => {
                for a in call.args() {
                    if let lama_inpaint::cuda::Arg::Ptr(Addr { base: Base::Heap(id), .. }) = a {
                        assert!(live.contains(&id));
                    }
                }
            }
            Cmd::Download { src } => {
                results += 1;
                match src.addr.base {
                    Base::Heap(id) => assert!(live.contains(&id)),
                    _ => panic!("the result is no activation"),
                }
            }
            _ => {}
        }
    }
    assert_eq!(results, 1);
    assert_eq!((made, filled), ([true; 2], [true; 2]));
    live.len()
}

#[test]
fn a_pass_gives_everything_back() {
    let (model, text, data, folds) = small_model();
    let s = WeightStore::open("i", &text, &data, true).unwrap();
    let c = run(&s, &model, &folds, flags(), 4 * 64, 8, 8);
    assert!(c.stop.is_none());
    assert_eq!(play(&c.cmds), 0);
    let out = c.cmds.iter().find_map(|x| match x {
        Cmd::Download { src } => Some(src.len),
        _ => None,
    });
    assert_eq!(out, Some(3 * 16 * 16));
    assert!(c.cmds.contains(&Cmd::Input { to: Addr {
        base: Base::Heap(c.cmds.iter().position(|x| matches!(x, Cmd::Malloc { floats: 256, .. })).unwrap()),
        offset: 0,
    }, floats: 256 }));
}

#[test]
fn switches_change_the_program() {
    let (model, text, data, folds) = small_model();
    let s = WeightStore::open("i", &text, &data, true).unwrap();
    let mut f = flags();
    f.convt_gather = true;
    f.profile = true;
    f.profile_ops = true;
    f.dump_after = Some(1);
    let c = run(&s, &model, &folds, f, 4 * 64, 8, 8);
    assert!(c.stop.is_none());
    assert_eq!(play(&c.cmds), 0);
    assert!(!c.cmds.iter().any(|x| matches!(x, Cmd::Gemm { role: lama_inpaint::cuda::Role::Phase(_), .. })));
    let dumps: Vec<usize> = c
        .cmds
        .iter()
        .filter_map(|x| match x {
            Cmd::Dump { step, .. } => Some(*step),
            _ => None,
        })
        .collect();
    assert_eq!(dumps, vec![1]);
    let notes = c.cmds.iter().filter(|x| matches!(x, Cmd::NoteStep { .. })).count();
    assert_eq!(notes, 4);
    let ends = c.cmds.iter().filter(|x| matches!(x, Cmd::OpEnd { .. })).count();
    assert_eq!(ends, 6);
}

#[test]
fn missing_branches_stop_the_pass() {
    let (_, text, data, folds) = small_model();
    let s = WeightStore::open("i", &text, &data, true).unwrap();
    let model = Model { steps: vec![Step::Concat] };
    let c = run(&s, &model, &folds, flags(), 16, 2, 2);
    match &c.stop {
        Some(Stop::Fault(e)) => assert_eq!(e, "Concat without a global branch"),
        _ => panic!("went on"),
    }
    let mut b = ffc(1, 0);
    b.g2l = ConvRef::Present { name: "convl2l".to_string() };
    let model = Model { steps: vec![Step::Ffc(b)] };
    let c = run(&s, &model, &folds, flags(), 256, 8, 8);
    match &c.stop {
        Some(Stop::Fault(e)) => assert_eq!(e, "convg2l present without a global branch"),
        _ => panic!("went on"),
    }
}

#[test]
fn loading_stops_at_the_first_obstacle() {
    let (_, text, data, folds) = small_model();
    let s = WeightStore::open("i", &text, &data, true).unwrap();
    let t = stage_bns(&s, &folds);
    let model = Model {
        steps: vec![
            Step::ReflectPad(1),
            Step::OutConv(OutConv { index: 99 }),
            Step::OutConv(OutConv { index: 5 }),
        ],
    };
    let mut c = Cuda::new(flags());
    let steps = load_steps(&mut c, &s, &t, &model);
    assert_eq!(steps.len(), 2);
    assert!(matches!(steps[0], DStep::ReflectPad(1)));
    match &c.stop {
        Some(Stop::Fault(e)) => assert_eq!(e, "missing tensor in weight blob: model.99.weight"),
        _ => panic!("went on"),
    }
}

fn spectral_model() -> (Model, String, Vec<u8>, Vec<Fold>) {
    let (text, data) = store_of(&[
        ("model.1.ffc.convl2l.weight", &[2, 4, 3, 3]),
        ("model.1.ffc.convl2g.weight", &[4, 4, 3, 3]),
        ("model.2.ffc.convl2l.weight", &[2, 2, 3, 3]),
        ("model.2.ffc.convl2g.weight", &[4, 2, 3, 3]),
        ("model.2.ffc.convg2l.weight", &[2, 4, 3, 3]),
        ("model.2.ffc.convg2g.conv1.0.weight", &[2, 4, 1, 1]),
        ("model.2.ffc.convg2g.conv1.1.weight", &[2]),
        ("model.2.ffc.convg2g.conv1.1.bias", &[2]),
        ("model.2.ffc.convg2g.conv1.1.running_mean", &[2]),
        ("model.2.ffc.convg2g.conv1.1.running_var", &[2]),
        ("model.2.ffc.convg2g.fu.conv_layer.weight", &[4, 4, 1, 1]),
        ("model.2.ffc.convg2g.fu.bn.weight", &[4]),
        ("model.2.ffc.convg2g.fu.bn.bias", &[4]),
        ("model.2.ffc.convg2g.fu.bn.running_mean", &[4]),
        ("model.2.ffc.convg2g.fu.bn.running_var", &[4]),
        ("model.2.ffc.convg2g.conv2.weight", &[4, 2, 1, 1]),
    ]);
    let base = |index, in_local, in_global| {
        let mut b = ffc(index, 0);
        b.in_local = in_local;
        b.in_global = in_global;
        b.out_local = 2;
        b.out_global = 4;
        b.bn_local = false;
        b.l2g = ConvRef::Present { name: "convl2g".to_string() };
        b
    };
    let first = base(1, 4, 0);
    let mut second = base(2, 2, 4);
    second.g2l = ConvRef::Present { name: "convg2l".to_string() };
    second.g2g = true;
    (
        Model { steps: vec![Step::Ffc(first), Step::Ffc(second), Step::Concat] },
        text,
        data,
        vec![fold(2), fold(4)],
    )
}

#[test]
fn spectral_branch_transforms_and_returns() {
    let (model, text, data, folds) = spectral_model();
    let s = WeightStore::open("i", &text, &data, true).unwrap();
    let c = run(&s, &model, &folds, flags(), 4 * 64, 8, 8);
    assert!(c.stop.is_none());
    assert_eq!(play(&c.cmds), 0);
    let ffts: Vec<bool> = c
        .cmds
        .iter()
        .filter_map(|x| match x {
            Cmd::Fft { key, .. } => {
                assert_eq!((key.h, key.w, key.batch), (8, 8, 2));
                Some(key.inverse)
            }
            _ => None,
        })
        .collect();
    assert_eq!(ffts, vec![false, true]);
    let out = c.cmds.iter().find_map(|x| match x {
        Cmd::Download { src } => Some(src.len),
        _ => None,
    });
    assert_eq!(out, Some(6 * 64));
    let mut f = flags();
    f.fft_host = true;
    let c = run(&s, &model, &folds, f, 4 * 64, 8, 8);
    assert!(c.stop.is_none());
    assert_eq!(play(&c.cmds), 0);
    assert_eq!(c.cmds.iter().filter(|x| matches!(x, Cmd::HostFft { .. })).count(), 2);
    assert_eq!(c.cmds.iter().filter(|x| matches!(x, Cmd::Fft { .. })).count(), 0);
}
