use lama_inpaint::cuda::{
    err, grid_for, all_kernels, Addr, Arg, Base, Call, Cmd, Cuda, DActs, Dev, Flags, Kernel, Role,
    Stop,
};
use lama_inpaint::ops::{
    avgpool2x2, bn_relu_add_inplace, concat_acts, conv_7x7_direct, conv_forward, conv_transpose,
    conv_transpose_phases, reflect_pad, run_dffc, DBn, DConv, DConvT, DFfc, Phases,
};

fn flags() -> Flags {
    Flags {
        convt_gather: false,
        profile_sub: false,
        profile_sync: false,
        fft_host: false,
        profile_ops: false,
        profile: false,
        dump_after: None,
    }
}

fn blob(offset: usize, len: usize) -> Dev {
    Dev { addr: Addr { base: Base::Blob, offset }, len, owned: false }
}

fn heap(id: usize) -> Addr {
    Addr { base: Base::Heap(id), offset: 0 }
}

fn acts(c: &mut Cuda, ch: usize, h: usize, w: usize) -> DActs {
    let buf = c.allocate(ch * h * w);
    DActs { buf, c: ch, h, w }
}

fn conv(cin: usize, cout: usize, k: usize) -> DConv {
    DConv { w: blob(64, 0), bias: None, cin, cout, kh: k, kw: k, w_t: None }
}

#[test]
fn grids_have_room_for_every_thread() {
    assert_eq!(grid_for(0, 256), 0);
    assert_eq!(grid_for(1, 256), 1);
    assert_eq!(grid_for(256, 256), 1);
    assert_eq!(grid_for(257, 256), 2);
    assert_eq!(grid_for(1000, 100), 10);
}

#[test]
fn runtime_errors_show_their_code() {
    assert_eq!(err(2, "cudaMalloc", "out of memory"), "cudaMalloc: cuda error 2 (out of memory)");
    assert_eq!(err(-7, "x", ""), "x: cuda error -7 ()");
}

#[test]
fn failures_name_the_call() {
    let d = blob(0, 4);
    let gemm = |role| Cmd::Gemm {
        role,
        m: 1,
        n: 1,
        k: 1,
        a: d.addr,
        lda: 1,
        b: d.addr,
        ldb: 1,
        c: d.addr,
        ldc: 1,
    };
    assert_eq!(gemm(Role::Conv).failure(13, ""), "cublasSgemm failed: 13");
    assert_eq!(gemm(Role::Conv1x1).failure(13, ""), "cublasSgemm (1x1) failed: 13");
    assert_eq!(gemm(Role::Phase(2)).failure(13, ""), "cublasSgemm (convT phase 2) failed: 13");
    assert_eq!(
        Cmd::BlobMalloc { floats: 1 }.failure(2, "oom"),
        "cudaMalloc (weight arena): cuda error 2 (oom)"
    );
    assert_eq!(
        Cmd::StageCopy { from: 0, floats: 1 }.failure(1, "bad"),
        "cudaMemcpy H2D (staged weights): cuda error 1 (bad)"
    );
    assert_eq!(
        Cmd::Download { src: d }.failure(1, "bad"),
        "cudaMemcpy D2H: cuda error 1 (bad)"
    );
    assert_eq!(Cmd::Sync.failure(1, "bad"), "cudaStreamSynchronize: cuda error 1 (bad)");
}

#[test]
fn kernels_have_their_symbols() {
    let names: Vec<&str> = all_kernels().into_iter().map(|k| k.name()).collect();
    assert_eq!(names.len(), 18);
    assert_eq!(names[0], "k_im2col");
    assert_eq!(names[16], "k_conv7x7");
    assert_eq!(names[17], "k_bn_relu_add");
}

#[test]
fn absent_pointers_are_null() {
    let a = blob(8, 1).addr;
    let call = Call::BnReluAdd { x: a, skip: None, scale: a, shift: a, plane: 9, channels: 2 };
    assert_eq!(call.kernel(), Kernel::BnReluAdd);
    assert_eq!(
        call.args(),
        vec![Arg::Ptr(a), Arg::Null, Arg::Ptr(a), Arg::Ptr(a), Arg::Long(9), Arg::Int(2)]
    );
}

#[test]
fn views_own_nothing() {
    let mut c = Cuda::new(flags());
    let a = acts(&mut c, 4, 2, 3);
    let v = a.view(1, 2);
    assert_eq!(v.buf, Dev { addr: Addr { base: Base::Heap(0), offset: 24 }, len: 12, owned: false });
    assert_eq!((v.c, v.h, v.w), (2, 2, 3));
    c.free(&v.buf);
    assert_eq!(c.cmds.len(), 1);
}

#[test]
fn convolution_goes_by_way_of_patches() {
    let mut c = Cuda::new(flags());
    let src = acts(&mut c, 2, 5, 6);
    let out = conv_forward(&mut c, &conv(2, 3, 3), &src, 1, 2, true);
    assert_eq!((out.c, out.h, out.w, out.buf.len), (3, 3, 3, 27));
    let (k, n) = (18usize, 9usize);
    assert_eq!(c.cmds[1], Cmd::Malloc { id: 1, floats: k * n });
    assert_eq!(c.cmds[2], Cmd::Malloc { id: 2, floats: 27 });
    assert_eq!(c.cmds[3], Cmd::Launch {
        call: Call::Im2col {
            src: heap(0),
            col: heap(1),
            cin: 2,
            h: 5,
            w: 6,
            kh: 3,
            kw: 3,
            ph: 1,
            pw: 1,
            stride: 2,
            oh: 3,
            ow: 3,
            reflect: 1,
        },
        grid: 1,
    });
    assert_eq!(c.cmds[4], Cmd::Gemm {
        role: Role::Conv,
        m: 9,
        n: 3,
        k: 18,
        a: heap(1),
        lda: 9,
        b: blob(64, 0).addr,
        ldb: 18,
        c: heap(2),
        ldc: 9,
    });
    assert_eq!(c.cmds[5], Cmd::Free { id: 1, floats: k * n });
    assert_eq!(c.cmds.len(), 6);
    assert!(c.stop.is_none());
}

#[test]
fn pointwise_convolution_is_one_product() {
    let mut c = Cuda::new(flags());
    let src = acts(&mut c, 4, 2, 2);
    let mut cv = conv(4, 5, 1);
    cv.bias = Some(blob(0, 5));
    let out = conv_forward(&mut c, &cv, &src, 0, 1, false);
    assert_eq!((out.c, out.h, out.w), (5, 2, 2));
    assert_eq!(c.cmds[2], Cmd::Gemm {
        role: Role::Conv1x1,
        m: 4,
        n: 5,
        k: 4,
        a: heap(0),
        lda: 4,
        b: blob(64, 0).addr,
        ldb: 4,
        c: heap(1),
        ldc: 4,
    });
    assert_eq!(c.cmds[3], Cmd::Launch {
        call: Call::BiasPlane { out: heap(1), bias: blob(0, 5).addr, cout: 5, n: 4 },
        grid: 1,
    });
    assert_eq!(c.cmds.len(), 4);
}

#[test]
fn reordered_weights_select_the_direct_kernel() {
    let mut c = Cuda::new(flags());
    let src = acts(&mut c, 2, 10, 9);
    let mut cv = conv(2, 3, 7);
    cv.w_t = Some(blob(128, 0));
    let out = conv_forward(&mut c, &cv, &src, 0, 1, false);
    assert_eq!((out.c, out.h, out.w, out.buf.len), (3, 4, 3, 36));
    assert!(matches!(
        c.cmds[2],
        Cmd::Launch { call: Call::Conv7x7 { bias: None, h_in: 10, w_in: 9, h_out: 4, w_out: 3, .. }, grid: 1 }
    ));
    // With padding the patch matrix is used.
    let out = conv_forward(&mut c, &cv, &src, 3, 1, false);
    assert_eq!((out.h, out.w), (10, 9));
}

#[test]
fn profiling_marks_the_parts() {
    let mut f = flags();
    f.profile_sub = true;
    let mut c = Cuda::new(f);
    let src = acts(&mut c, 1, 4, 4);
    conv_forward(&mut c, &conv(1, 2, 3), &src, 0, 1, false);
    let subs: Vec<Cmd> =
        c.cmds.iter().copied().filter(|x| matches!(x, Cmd::SubEnd { .. })).collect();
    assert_eq!(subs.len(), 2);
    assert!(matches!(subs[0], Cmd::SubEnd { elems: 8, flops: 72, .. }));
    assert!(matches!(subs[1], Cmd::SubEnd { elems: 8, flops: 144, .. }));
    assert_eq!(c.cmds.iter().filter(|x| **x == Cmd::Sync).count(), 2);
}

#[test]
fn sizes_that_do_not_work_out_stop_the_recording() {
    let mut c = Cuda::new(flags());
    let src = acts(&mut c, 1, 2, 2);
    conv_forward(&mut c, &conv(1, 1, 5), &src, 0, 1, false);
    assert!(matches!(c.stop, Some(Stop::Misfit)));
    let n = c.cmds.len();
    reflect_pad(&mut c, &src, 1);
    assert_eq!(c.cmds.len(), n);
    let mut c = Cuda::new(flags());
    conv_forward(&mut c, &conv(1, 1, 3), &src, 1, 0, false);
    assert!(matches!(c.stop, Some(Stop::Misfit)));
}

#[test]
fn padding_and_pooling_change_the_extents() {
    let mut c = Cuda::new(flags());
    let src = acts(&mut c, 2, 5, 7);
    let p = reflect_pad(&mut c, &src, 3);
    assert_eq!((p.c, p.h, p.w, p.buf.len), (2, 11, 13, 286));
    let q = avgpool2x2(&mut c, &src);
    assert_eq!((q.c, q.h, q.w, q.buf.len), (2, 2, 3, 12));
}

#[test]
fn stacking_copies_one_after_the_other() {
    let mut c = Cuda::new(flags());
    let a = acts(&mut c, 2, 2, 2);
    let g = acts(&mut c, 3, 2, 2);
    let out = concat_acts(&mut c, &a, &g);
    assert_eq!((out.c, out.buf.len), (5, 20));
    assert_eq!(c.cmds[4], Cmd::Launch {
        call: Call::CopyPlane {
            src: heap(1),
            out: Addr { base: Base::Heap(2), offset: 32 },
            n: 12,
        },
        grid: 1,
    });
}

#[test]
fn normalisation_counts_its_planes() {
    let mut c = Cuda::new(flags());
    let x = acts(&mut c, 300, 2, 1);
    let bn = DBn { scale: blob(0, 300), shift: blob(4, 300), channels: 300 };
    bn_relu_add_inplace(&mut c, &x, &bn, &Some(x));
    assert_eq!(c.cmds[1], Cmd::Launch {
        call: Call::BnReluAdd {
            x: heap(0),
            skip: Some(heap(0)),
            scale: blob(0, 300).addr,
            shift: blob(4, 300).addr,
            plane: 2,
            channels: 300,
        },
        grid: 3,
    });
}

#[test]
fn upsampling_runs_four_phases() {
    let mut c = Cuda::new(flags());
    let src = acts(&mut c, 2, 3, 4);
    let w = Phases { p00: blob(0, 0), p01: blob(4, 0), p10: blob(8, 0), p11: blob(12, 0) };
    let cv = DConvT { w: blob(0, 0), bias: blob(0, 1), cin: 2, cout: 1, phases: Some(w) };
    let out = conv_transpose_phases(&mut c, &cv, &src, &w);
    assert_eq!((out.c, out.h, out.w, out.buf.len), (1, 6, 8, 48));
    let gemms: Vec<(Role, i32, i32)> = c
        .cmds
        .iter()
        .filter_map(|x| match x {
            Cmd::Gemm { role, m, k, .. } => Some((*role, *m, *k)),
            _ => None,
        })
        .collect();
    assert_eq!(gemms, vec![
        (Role::Phase(0), 12, 2),
        (Role::Phase(1), 12, 4),
        (Role::Phase(2), 12, 4),
        (Role::Phase(3), 12, 8),
    ]);
    let freed = c.cmds.iter().filter(|x| matches!(x, Cmd::Free { .. })).count();
    assert_eq!(freed, 8);
    let puts: Vec<(i32, i32, i32)> = c
        .cmds
        .iter()
        .filter_map(|x| match x {
            Cmd::Launch { call: Call::ConvtPut { py, px, n, .. }, .. } => Some((*py, *px, *n)),
            _ => None,
        })
        .collect();
    assert_eq!(puts, vec![(0, 0, 12), (0, 1, 12), (1, 0, 12), (1, 1, 12)]);
    for y in 0..6 {
        for x in 0..8 {
            let owners = puts.iter().filter(|(py, px, _)| *py == y % 2 && *px == x % 2).count();
            assert_eq!(owners, 1);
        }
    }
    for (py, px, n) in &puts {
        let owned = (0..48).filter(|i| (i / 8) % 2 == *py && (i % 8) % 2 == *px).count();
        assert_eq!(owned as i32, *n);
    }
    let mut d = Cuda::new(flags());
    let src = acts(&mut d, 2, 3, 4);
    let out = conv_transpose(&mut d, &cv, &src);
    assert_eq!((out.h, out.w, d.cmds.len()), (6, 8, 3));
}

#[test]
fn uploads_keep_their_floats_together() {
    let mut c = Cuda::new(flags());
    let a = c.upload(&vec![1, 2, 3]);
    let b = c.upload(&vec![]);
    let d = c.upload(&vec![9]);
    assert_eq!((a.len, b.len, d.len), (3, 0, 1));
    assert_eq!(c.data, vec![1, 2, 3, 9]);
    assert_eq!(c.cmds, vec![
        Cmd::Malloc { id: 0, floats: 3 },
        Cmd::Upload { to: heap(0), from: 0, floats: 3 },
        Cmd::Malloc { id: 2, floats: 0 },
        Cmd::Malloc { id: 3, floats: 1 },
        Cmd::Upload { to: heap(3), from: 3, floats: 1 },
    ]);
}

#[test]
fn direct_convolution_needs_reordered_weights() {
    let mut c = Cuda::new(flags());
    let x = acts(&mut c, 4, 12, 10);
    let mut cv = conv(4, 3, 7);
    cv.w_t = Some(blob(256, 588));
    let out = conv_7x7_direct(&mut c, &cv, &x);
    assert_eq!((out.c, out.h, out.w), (3, 6, 4));
    assert!(c.stop.is_none());
    cv.w_t = None;
    conv_7x7_direct(&mut c, &cv, &x);
    assert!(matches!(
        &c.stop,
        Some(Stop::Fault(e)) if e == "conv_7x7_direct without a transposed weight"
    ));
}

#[test]
fn evaluations_have_the_outputs_of_their_channels() {
    let mut w = DFfc {
        kernel: 1,
        stride: 1,
        pad: 0,
        reflect: false,
        in_local: 2,
        in_global: 0,
        out_local: 3,
        out_global: 0,
        l2l: Some(conv(2, 3, 1)),
        l2g: Some(conv(2, 4, 1)),
        g2l: None,
        bn_l: None,
        bn_g: None,
        spectral: None,
    };
    let mut c = Cuda::new(flags());
    let inp = acts(&mut c, 2, 5, 6);
    let (l, g) = run_dffc(&mut c, &w, &inp, &None, &None, &None);
    assert!(c.stop.is_none() && g.is_none());
    assert_eq!((l.c, l.h, l.w), (3, 5, 6));
    w.out_local = 0;
    w.out_global = 4;
    let (l, g) = run_dffc(&mut c, &w, &inp, &None, &None, &None);
    assert!(c.stop.is_none());
    assert_eq!((l.c, l.h, l.w, l.buf.len), (0, 5, 6, 0));
    assert_eq!(g.map(|g| (g.c, g.h, g.w)), Some((4, 5, 6)));
    w.out_local = 3;
    w.g2l = Some(conv(2, 3, 1));
    run_dffc(&mut c, &w, &inp, &None, &None, &None);
    match &c.stop {
        Some(Stop::Fault(e)) => assert_eq!(e, "convg2l present without a global branch"),
        _ => panic!("went on"),
    }
}
