//! The work for a CUDA device, recorded as a program.
//!
//! Nothing here talks to a device. A [`Cuda`] collects commands in the order in
//! which they are to be performed, and whoever holds the device performs them one
//! after the other. Recording stops at the first obstacle, after which nothing
//! more is recorded: the commands before it still stand.

use vstd::prelude::*;

use crate::fft::PlanKey;
use crate::text::{cat, dec, decimal_usize, signed_dec, signed_decimal};

verus! {

/// Threads per block of every launch.
pub const BLOCK: u32 = 256;

// ---------------------------------------------------------------------------
// Device memory
// ---------------------------------------------------------------------------

/// A block of device memory.
#[derive(Clone, Copy, PartialEq, Eq, Structural, Debug)]
pub enum Base {
    /// An allocation, named by the position of the command that made it.
    Heap(usize),
    /// The copy of the whole weight blob.
    Blob,
    /// The copy of everything that was derived from the weights and staged.
    Staging,
}

/// A place in device memory: so many bytes into a block.
#[derive(Clone, Copy, PartialEq, Eq, Structural, Debug)]
pub struct Addr {
    pub base: Base,
    pub offset: usize,
}

/// A device buffer of `len` four-byte floats.
#[derive(Clone, Copy, PartialEq, Eq, Structural, Debug)]
pub struct Dev {
    pub addr: Addr,
    pub len: usize,
    /// False for windows into another buffer, which the owner frees.
    pub owned: bool,
}

/// A device-resident activation block `[c][h][w]`, row-major.
#[derive(Clone, Copy, PartialEq, Eq, Structural, Debug)]
pub struct DActs {
    pub buf: Dev,
    pub c: usize,
    pub h: usize,
    pub w: usize,
}

impl DActs {
    /// The values in one channel.
    pub open spec fn plane_len(self) -> int {
        self.h * self.w
    }

    /// Whether a view of `channels` planes from `first` can be addressed.
    pub open spec fn view_fits(self, first: int, channels: int) -> bool {
        &&& 0 <= first
        &&& self.plane_len() <= usize::MAX
        &&& first * self.plane_len() * 4 <= usize::MAX
        &&& self.buf.addr.offset + first * self.plane_len() * 4 <= usize::MAX
        &&& channels * self.plane_len() <= usize::MAX
    }

    /// The `channels` planes from `first`, as a window that owns nothing.
    pub open spec fn window(self, first: int, channels: usize) -> DActs {
        DActs {
            buf: Dev {
                addr: Addr {
                    base: self.buf.addr.base,
                    offset: (self.buf.addr.offset + first * self.plane_len() * 4) as usize,
                },
                len: (channels * self.plane_len()) as usize,
                owned: false,
            },
            c: channels,
            h: self.h,
            w: self.w,
        }
    }

    pub fn plane(&self) -> (r: usize)
        requires
            self.plane_len() <= usize::MAX,
        ensures
            r == self.plane_len(),
    {
        self.h * self.w
    }

    /// A non-owning view of `channels` planes starting at `first`.
    pub fn view(&self, first: usize, channels: usize) -> (r: DActs)
        requires
            self.view_fits(first as int, channels as int),
        ensures
            r == self.window(first as int, channels),
    {
        let plane = self.plane();
        proof {
            assert(0 <= first * plane) by (nonlinear_arith);
        }
        let skip: usize = first * plane * 4;
        DActs {
            buf: Dev {
                addr: Addr { base: self.buf.addr.base, offset: self.buf.addr.offset + skip },
                len: channels * plane,
                owned: false,
            },
            c: channels,
            h: self.h,
            w: self.w,
        }
    }
}

/// A view of planes that the block has lies inside the block's buffer.
pub proof fn window_lies_inside(a: DActs, first: int, channels: usize)
    requires
        a.buf.len == a.c * a.plane_len(),
        a.plane_len() <= usize::MAX,
        a.buf.addr.offset + a.buf.len * 4 <= usize::MAX,
        0 <= first,
        first + channels <= a.c,
    ensures
        a.view_fits(first, channels as int),
        ({
            let v = a.window(first, channels);
            &&& v.buf.addr.base == a.buf.addr.base
            &&& a.buf.addr.offset <= v.buf.addr.offset
            &&& v.buf.addr.offset + v.buf.len * 4 <= a.buf.addr.offset + a.buf.len * 4
        }),
{
    let plane = a.plane_len();
    assert(0 <= plane) by (nonlinear_arith)
        requires
            plane == a.h * a.w,
    ;
    assert(first * plane + channels * plane == (first + channels) * plane) by (nonlinear_arith);
    assert((first + channels) * plane <= a.c * plane) by (nonlinear_arith)
        requires
            first + channels <= a.c,
            0 <= plane,
    ;
    assert(0 <= first * plane) by (nonlinear_arith)
        requires
            0 <= first,
            0 <= plane,
    ;
    assert(0 <= channels * plane) by (nonlinear_arith)
        requires
            0 <= plane,
    ;
}

// ---------------------------------------------------------------------------
// Kernels
// ---------------------------------------------------------------------------

/// The kernels of the embedded image, in the order in which they are resolved.
#[derive(Clone, Copy, PartialEq, Eq, Structural, Debug)]
pub enum Kernel {
    Im2col,
    ConvTranspose,
    BnRelu,
    Relu,
    Sigmoid,
    AddInplace,
    Scale,
    ReflectPad,
    Avgpool2x2,
    CopyPlane,
    SpecPack,
    SpecUnpack,
    CplxRealScale,
    ConvtCol,
    ConvtPut,
    BiasPlane,
    Conv7x7,
    BnReluAdd,
}

/// A kernel with its arguments. The fields stand in the order in which the kernel
/// declares its parameters.
#[allow(inconsistent_fields)]
#[derive(Clone, Copy, PartialEq, Eq, Structural, Debug)]
pub enum Call {
    Im2col {
        src: Addr,
        col: Addr,
        cin: i32,
        h: i32,
        w: i32,
        kh: i32,
        kw: i32,
        ph: i32,
        pw: i32,
        stride: i32,
        oh: i32,
        ow: i32,
        reflect: i32,
    },
    ConvTranspose {
        src: Addr,
        weight: Addr,
        bias: Addr,
        out: Addr,
        cin: i32,
        cout: i32,
        h: i32,
        w: i32,
        oh: i32,
        ow: i32,
        kh: i32,
        kw: i32,
        stride: i32,
        pad: i32,
    },
    BnRelu { x: Addr, scale: Addr, shift: Addr, plane: i64, channels: i32 },
    Sigmoid { x: Addr, n: i64 },
    AddInplace { a: Addr, b: Addr, n: i64 },
    /// Scales by the reciprocal of the square root of `area`.
    Scale { x: Addr, n: i64, area: usize },
    ReflectPad { src: Addr, out: Addr, c: i32, h: i32, w: i32, pad: i32 },
    Avgpool2x2 { src: Addr, out: Addr, c: i32, h: i32, w: i32 },
    CopyPlane { src: Addr, out: Addr, n: i64 },
    /// Scales by the reciprocal of the square root of `area`.
    SpecPack { complex: Addr, packed: Addr, half: i32, plane: i32, area: usize },
    SpecUnpack { packed: Addr, complex: Addr, half: i32, plane: i32 },
    ConvtCol {
        src: Addr,
        col: Addr,
        cin: i32,
        h: i32,
        w: i32,
        py: i32,
        px: i32,
        taps: i32,
        n: i32,
        oh: i32,
        ow: i32,
    },
    ConvtPut {
        phase: Addr,
        out: Addr,
        bias: Addr,
        cout: i32,
        n: i32,
        py: i32,
        px: i32,
        oh: i32,
        ow: i32,
        mode: i32,
    },
    BiasPlane { out: Addr, bias: Addr, cout: i32, n: i64 },
    Conv7x7 {
        src: Addr,
        weight: Addr,
        bias: Option<Addr>,
        out: Addr,
        cin: i32,
        cout: i32,
        h_in: i32,
        w_in: i32,
        h_out: i32,
        w_out: i32,
    },
    BnReluAdd {
        x: Addr,
        skip: Option<Addr>,
        scale: Addr,
        shift: Addr,
        plane: i64,
        channels: i32,
    },
}

/// One kernel argument.
#[derive(Clone, Copy, PartialEq, Eq, Structural, Debug)]
pub enum Arg {
    Ptr(Addr),
    /// The null pointer.
    Null,
    Int(i32),
    Long(i64),
    /// The float that is the reciprocal of the square root of this area.
    Ortho(usize),
}

/// A pointer that may be absent.
pub open spec fn maybe_ptr(a: Option<Addr>) -> Arg {
    match a {
        Some(a) => Arg::Ptr(a),
        None => Arg::Null,
    }
}

fn ptr_or_null(a: Option<Addr>) -> (r: Arg)
    ensures
        r == maybe_ptr(a),
{
    match a {
        Some(a) => Arg::Ptr(a),
        None => Arg::Null,
    }
}

/// The symbol of a kernel in the embedded image.
pub open spec fn symbol(k: Kernel) -> Seq<char> {
    match k {
        Kernel::Im2col => "k_im2col"@,
        Kernel::ConvTranspose => "k_conv_transpose"@,
        Kernel::BnRelu => "k_bn_relu"@,
        Kernel::Relu => "k_relu"@,
        Kernel::Sigmoid => "k_sigmoid"@,
        Kernel::AddInplace => "k_add_inplace"@,
        Kernel::Scale => "k_scale"@,
        Kernel::ReflectPad => "k_reflect_pad"@,
        Kernel::Avgpool2x2 => "k_avgpool2x2"@,
        Kernel::CopyPlane => "k_copy_plane"@,
        Kernel::SpecPack => "k_spec_pack"@,
        Kernel::SpecUnpack => "k_spec_unpack"@,
        Kernel::CplxRealScale => "k_cplx_real_scale"@,
        Kernel::ConvtCol => "k_convt_col"@,
        Kernel::ConvtPut => "k_convt_put"@,
        Kernel::BiasPlane => "k_bias_plane"@,
        Kernel::Conv7x7 => "k_conv7x7"@,
        Kernel::BnReluAdd => "k_bn_relu_add"@,
    }
}

/// All kernels, in the order in which they are resolved.
pub open spec fn kernels() -> Seq<Kernel> {
    seq![
        Kernel::Im2col,
        Kernel::ConvTranspose,
        Kernel::BnRelu,
        Kernel::Relu,
        Kernel::Sigmoid,
        Kernel::AddInplace,
        Kernel::Scale,
        Kernel::ReflectPad,
        Kernel::Avgpool2x2,
        Kernel::CopyPlane,
        Kernel::SpecPack,
        Kernel::SpecUnpack,
        Kernel::CplxRealScale,
        Kernel::ConvtCol,
        Kernel::ConvtPut,
        Kernel::BiasPlane,
        Kernel::Conv7x7,
        Kernel::BnReluAdd,
    ]
}

/// List the kernels.
pub fn all_kernels() -> (r: Vec<Kernel>)
    ensures
        r@ == kernels(),
{
    vec![
        Kernel::Im2col,
        Kernel::ConvTranspose,
        Kernel::BnRelu,
        Kernel::Relu,
        Kernel::Sigmoid,
        Kernel::AddInplace,
        Kernel::Scale,
        Kernel::ReflectPad,
        Kernel::Avgpool2x2,
        Kernel::CopyPlane,
        Kernel::SpecPack,
        Kernel::SpecUnpack,
        Kernel::CplxRealScale,
        Kernel::ConvtCol,
        Kernel::ConvtPut,
        Kernel::BiasPlane,
        Kernel::Conv7x7,
        Kernel::BnReluAdd,
    ]
}

impl Kernel {
    /// The kernel's symbol in the embedded image.
    pub fn name(self) -> (r: &'static str)
        ensures
            r@ == symbol(self),
    {
        match self {
            Kernel::Im2col => "k_im2col",
            Kernel::ConvTranspose => "k_conv_transpose",
            Kernel::BnRelu => "k_bn_relu",
            Kernel::Relu => "k_relu",
            Kernel::Sigmoid => "k_sigmoid",
            Kernel::AddInplace => "k_add_inplace",
            Kernel::Scale => "k_scale",
            Kernel::ReflectPad => "k_reflect_pad",
            Kernel::Avgpool2x2 => "k_avgpool2x2",
            Kernel::CopyPlane => "k_copy_plane",
            Kernel::SpecPack => "k_spec_pack",
            Kernel::SpecUnpack => "k_spec_unpack",
            Kernel::CplxRealScale => "k_cplx_real_scale",
            Kernel::ConvtCol => "k_convt_col",
            Kernel::ConvtPut => "k_convt_put",
            Kernel::BiasPlane => "k_bias_plane",
            Kernel::Conv7x7 => "k_conv7x7",
            Kernel::BnReluAdd => "k_bn_relu_add",
        }
    }
}

/// The kernel that a call runs.
pub open spec fn kernel_of(call: Call) -> Kernel {
    match call {
        Call::Im2col { .. } => Kernel::Im2col,
        Call::ConvTranspose { .. } => Kernel::ConvTranspose,
        Call::BnRelu { .. } => Kernel::BnRelu,
        Call::Sigmoid { .. } => Kernel::Sigmoid,
        Call::AddInplace { .. } => Kernel::AddInplace,
        Call::Scale { .. } => Kernel::Scale,
        Call::ReflectPad { .. } => Kernel::ReflectPad,
        Call::Avgpool2x2 { .. } => Kernel::Avgpool2x2,
        Call::CopyPlane { .. } => Kernel::CopyPlane,
        Call::SpecPack { .. } => Kernel::SpecPack,
        Call::SpecUnpack { .. } => Kernel::SpecUnpack,
        Call::ConvtCol { .. } => Kernel::ConvtCol,
        Call::ConvtPut { .. } => Kernel::ConvtPut,
        Call::BiasPlane { .. } => Kernel::BiasPlane,
        Call::Conv7x7 { .. } => Kernel::Conv7x7,
        Call::BnReluAdd { .. } => Kernel::BnReluAdd,
    }
}

/// The arguments of a call in the kernel's order.
pub open spec fn arguments(call: Call) -> Seq<Arg> {
    match call {
        Call::Im2col { src, col, cin, h, w, kh, kw, ph, pw, stride, oh, ow, reflect } => seq![
            Arg::Ptr(src),
            Arg::Ptr(col),
            Arg::Int(cin),
            Arg::Int(h),
            Arg::Int(w),
            Arg::Int(kh),
            Arg::Int(kw),
            Arg::Int(ph),
            Arg::Int(pw),
            Arg::Int(stride),
            Arg::Int(oh),
            Arg::Int(ow),
            Arg::Int(reflect),
        ],
        Call::ConvTranspose {
            src,
            weight,
            bias,
            out,
            cin,
            cout,
            h,
            w,
            oh,
            ow,
            kh,
            kw,
            stride,
            pad,
        } => seq![
            Arg::Ptr(src),
            Arg::Ptr(weight),
            Arg::Ptr(bias),
            Arg::Ptr(out),
            Arg::Int(cin),
            Arg::Int(cout),
            Arg::Int(h),
            Arg::Int(w),
            Arg::Int(oh),
            Arg::Int(ow),
            Arg::Int(kh),
            Arg::Int(kw),
            Arg::Int(stride),
            Arg::Int(pad),
        ],
        Call::BnRelu { x, scale, shift, plane, channels } => seq![
            Arg::Ptr(x),
            Arg::Ptr(scale),
            Arg::Ptr(shift),
            Arg::Long(plane),
            Arg::Int(channels),
        ],
        Call::Sigmoid { x, n } => seq![Arg::Ptr(x), Arg::Long(n)],
        Call::AddInplace { a, b, n } => seq![Arg::Ptr(a), Arg::Ptr(b), Arg::Long(n)],
        Call::Scale { x, n, area } => seq![Arg::Ptr(x), Arg::Long(n), Arg::Ortho(area)],
        Call::ReflectPad { src, out, c, h, w, pad } => seq![
            Arg::Ptr(src),
            Arg::Ptr(out),
            Arg::Int(c),
            Arg::Int(h),
            Arg::Int(w),
            Arg::Int(pad),
        ],
        Call::Avgpool2x2 { src, out, c, h, w } => seq![
            Arg::Ptr(src),
            Arg::Ptr(out),
            Arg::Int(c),
            Arg::Int(h),
            Arg::Int(w),
        ],
        Call::CopyPlane { src, out, n } => seq![Arg::Ptr(src), Arg::Ptr(out), Arg::Long(n)],
        Call::SpecPack { complex, packed, half, plane, area } => seq![
            Arg::Ptr(complex),
            Arg::Ptr(packed),
            Arg::Int(half),
            Arg::Int(plane),
            Arg::Ortho(area),
        ],
        Call::SpecUnpack { packed, complex, half, plane } => seq![
            Arg::Ptr(packed),
            Arg::Ptr(complex),
            Arg::Int(half),
            Arg::Int(plane),
        ],
        Call::ConvtCol { src, col, cin, h, w, py, px, taps, n, oh, ow } => seq![
            Arg::Ptr(src),
            Arg::Ptr(col),
            Arg::Int(cin),
            Arg::Int(h),
            Arg::Int(w),
            Arg::Int(py),
            Arg::Int(px),
            Arg::Int(taps),
            Arg::Int(n),
            Arg::Int(oh),
            Arg::Int(ow),
        ],
        Call::ConvtPut { phase, out, bias, cout, n, py, px, oh, ow, mode } => seq![
            Arg::Ptr(phase),
            Arg::Ptr(out),
            Arg::Ptr(bias),
            Arg::Int(cout),
            Arg::Int(n),
            Arg::Int(py),
            Arg::Int(px),
            Arg::Int(oh),
            Arg::Int(ow),
            Arg::Int(mode),
        ],
        Call::BiasPlane { out, bias, cout, n } => seq![
            Arg::Ptr(out),
            Arg::Ptr(bias),
            Arg::Int(cout),
            Arg::Long(n),
        ],
        Call::Conv7x7 { src, weight, bias, out, cin, cout, h_in, w_in, h_out, w_out } => seq![
            Arg::Ptr(src),
            Arg::Ptr(weight),
            maybe_ptr(bias),
            Arg::Ptr(out),
            Arg::Int(cin),
            Arg::Int(cout),
            Arg::Int(h_in),
            Arg::Int(w_in),
            Arg::Int(h_out),
            Arg::Int(w_out),
        ],
        Call::BnReluAdd { x, skip, scale, shift, plane, channels } => seq![
            Arg::Ptr(x),
            maybe_ptr(skip),
            Arg::Ptr(scale),
            Arg::Ptr(shift),
            Arg::Long(plane),
            Arg::Int(channels),
        ],
    }
}

impl Call {
    /// The kernel to run.
    pub fn kernel(&self) -> (r: Kernel)
        ensures
            r == kernel_of(*self),
    {
        match self {
            Call::Im2col { .. } => Kernel::Im2col,
            Call::ConvTranspose { .. } => Kernel::ConvTranspose,
            Call::BnRelu { .. } => Kernel::BnRelu,
            Call::Sigmoid { .. } => Kernel::Sigmoid,
            Call::AddInplace { .. } => Kernel::AddInplace,
            Call::Scale { .. } => Kernel::Scale,
            Call::ReflectPad { .. } => Kernel::ReflectPad,
            Call::Avgpool2x2 { .. } => Kernel::Avgpool2x2,
            Call::CopyPlane { .. } => Kernel::CopyPlane,
            Call::SpecPack { .. } => Kernel::SpecPack,
            Call::SpecUnpack { .. } => Kernel::SpecUnpack,
            Call::ConvtCol { .. } => Kernel::ConvtCol,
            Call::ConvtPut { .. } => Kernel::ConvtPut,
            Call::BiasPlane { .. } => Kernel::BiasPlane,
            Call::Conv7x7 { .. } => Kernel::Conv7x7,
            Call::BnReluAdd { .. } => Kernel::BnReluAdd,
        }
    }

    /// The arguments to hand to the kernel, in order.
    pub fn args(&self) -> (r: Vec<Arg>)
        ensures
            r@ == arguments(*self),
    {
        match *self {
            Call::Im2col { src, col, cin, h, w, kh, kw, ph, pw, stride, oh, ow, reflect } => vec![
                Arg::Ptr(src),
                Arg::Ptr(col),
                Arg::Int(cin),
                Arg::Int(h),
                Arg::Int(w),
                Arg::Int(kh),
                Arg::Int(kw),
                Arg::Int(ph),
                Arg::Int(pw),
                Arg::Int(stride),
                Arg::Int(oh),
                Arg::Int(ow),
                Arg::Int(reflect),
            ],
            Call::ConvTranspose {
                src,
                weight,
                bias,
                out,
                cin,
                cout,
                h,
                w,
                oh,
                ow,
                kh,
                kw,
                stride,
                pad,
            } => vec![
                Arg::Ptr(src),
                Arg::Ptr(weight),
                Arg::Ptr(bias),
                Arg::Ptr(out),
                Arg::Int(cin),
                Arg::Int(cout),
                Arg::Int(h),
                Arg::Int(w),
                Arg::Int(oh),
                Arg::Int(ow),
                Arg::Int(kh),
                Arg::Int(kw),
                Arg::Int(stride),
                Arg::Int(pad),
            ],
            Call::BnRelu { x, scale, shift, plane, channels } => vec![
                Arg::Ptr(x),
                Arg::Ptr(scale),
                Arg::Ptr(shift),
                Arg::Long(plane),
                Arg::Int(channels),
            ],
            Call::Sigmoid { x, n } => vec![Arg::Ptr(x), Arg::Long(n)],
            Call::AddInplace { a, b, n } => vec![Arg::Ptr(a), Arg::Ptr(b), Arg::Long(n)],
            Call::Scale { x, n, area } => vec![Arg::Ptr(x), Arg::Long(n), Arg::Ortho(area)],
            Call::ReflectPad { src, out, c, h, w, pad } => vec![
                Arg::Ptr(src),
                Arg::Ptr(out),
                Arg::Int(c),
                Arg::Int(h),
                Arg::Int(w),
                Arg::Int(pad),
            ],
            Call::Avgpool2x2 { src, out, c, h, w } => vec![
                Arg::Ptr(src),
                Arg::Ptr(out),
                Arg::Int(c),
                Arg::Int(h),
                Arg::Int(w),
            ],
            Call::CopyPlane { src, out, n } => vec![Arg::Ptr(src), Arg::Ptr(out), Arg::Long(n)],
            Call::SpecPack { complex, packed, half, plane, area } => vec![
                Arg::Ptr(complex),
                Arg::Ptr(packed),
                Arg::Int(half),
                Arg::Int(plane),
                Arg::Ortho(area),
            ],
            Call::SpecUnpack { packed, complex, half, plane } => vec![
                Arg::Ptr(packed),
                Arg::Ptr(complex),
                Arg::Int(half),
                Arg::Int(plane),
            ],
            Call::ConvtCol { src, col, cin, h, w, py, px, taps, n, oh, ow } => vec![
                Arg::Ptr(src),
                Arg::Ptr(col),
                Arg::Int(cin),
                Arg::Int(h),
                Arg::Int(w),
                Arg::Int(py),
                Arg::Int(px),
                Arg::Int(taps),
                Arg::Int(n),
                Arg::Int(oh),
                Arg::Int(ow),
            ],
            Call::ConvtPut { phase, out, bias, cout, n, py, px, oh, ow, mode } => vec![
                Arg::Ptr(phase),
                Arg::Ptr(out),
                Arg::Ptr(bias),
                Arg::Int(cout),
                Arg::Int(n),
                Arg::Int(py),
                Arg::Int(px),
                Arg::Int(oh),
                Arg::Int(ow),
                Arg::Int(mode),
            ],
            Call::BiasPlane { out, bias, cout, n } => vec![
                Arg::Ptr(out),
                Arg::Ptr(bias),
                Arg::Int(cout),
                Arg::Long(n),
            ],
            Call::Conv7x7 { src, weight, bias, out, cin, cout, h_in, w_in, h_out, w_out } => vec![
                Arg::Ptr(src),
                Arg::Ptr(weight),
                ptr_or_null(bias),
                Arg::Ptr(out),
                Arg::Int(cin),
                Arg::Int(cout),
                Arg::Int(h_in),
                Arg::Int(w_in),
                Arg::Int(h_out),
                Arg::Int(w_out),
            ],
            Call::BnReluAdd { x, skip, scale, shift, plane, channels } => vec![
                Arg::Ptr(x),
                ptr_or_null(skip),
                Arg::Ptr(scale),
                Arg::Ptr(shift),
                Arg::Long(plane),
                Arg::Int(channels),
            ],
        }
    }
}

// ---------------------------------------------------------------------------
// Commands
// ---------------------------------------------------------------------------

/// What a matrix product is for.
#[derive(Clone, Copy, PartialEq, Eq, Structural, Debug)]
pub enum Role {
    Conv,
    Conv1x1,
    /// One phase of a transposed convolution.
    Phase(usize),
}

/// The kinds of steps that are timed under `LAMA_PROFILE_OPS`.
#[derive(Clone, Copy, PartialEq, Eq, Structural, Debug)]
pub enum Op {
    Pad,
    Ffc,
    ResA,
    ResB,
    Upsample,
    OutConv,
}

/// The parts of a convolution that are timed under `LAMA_PROFILE_SUB`.
#[derive(Clone, Copy, PartialEq, Eq, Structural, Debug)]
pub enum Sub {
    Im2col,
    Sgemm,
    Sgemm1x1,
}

/// The extents of an activation block.
#[derive(Clone, Copy, PartialEq, Eq, Structural, Debug)]
pub struct Shape {
    pub c: usize,
    pub h: usize,
    pub w: usize,
}

/// One thing for the device, or for the one who drives it, to do.
#[allow(inconsistent_fields)]
#[derive(Clone, Copy, PartialEq, Eq, Structural, Debug)]
pub enum Cmd {
    /// Get a block for `floats` floats, from the pool or from the driver.
    Malloc { id: usize, floats: usize },
    /// Give a block back, to the pool or to the driver.
    Free { id: usize, floats: usize },
    /// Get the weight arena straight from the driver.
    BlobMalloc { floats: usize },
    /// Copy the weight blob to its arena.
    BlobCopy { bytes: usize },
    /// Get the staging arena straight from the driver.
    StageMalloc { floats: usize },
    /// Copy staged floats to their arena.
    StageCopy { from: usize, floats: usize },
    /// Copy recorded floats to the device.
    Upload { to: Addr, from: usize, floats: usize },
    /// Copy the network's input to the device.
    Input { to: Addr, floats: usize },
    /// Launch a kernel on `grid` blocks.
    Launch { call: Call, grid: u32 },
    /// Multiply column-major matrices: `c = a * b`.
    Gemm {
        role: Role,
        m: i32,
        n: i32,
        k: i32,
        a: Addr,
        lda: i32,
        b: Addr,
        ldb: i32,
        c: Addr,
        ldc: i32,
    },
    /// Make the plan for `key`, unless there is one.
    Plan { key: PlanKey },
    /// Transform with the plan for `key`.
    Fft { key: PlanKey, src: Addr, dst: Addr },
    /// Copy a buffer to the host, for a transform there.
    Fetch { src: Dev },
    /// Transform on the host what was fetched last, and copy it to the device.
    HostFft { key: PlanKey, to: Dev },
    /// Wait for the stream.
    Sync,
    /// Copy a buffer to the host: the program's result.
    Download { src: Dev },
    /// Copy the activations after a step to the host and write them down.
    Dump { step: usize, local: DActs, global: Option<DActs> },
    /// Start timing a step.
    OpBegin,
    /// Book the time since the step began.
    OpEnd { op: Op },
    /// Start timing a part of a convolution.
    SubBegin,
    /// Book the time since the part began, with what it produced and computed.
    SubEnd { sub: Sub, elems: usize, flops: usize },
    /// Start timing a transform pair.
    FftBegin,
    /// Book the time since the transform pair began.
    FftEnd,
    /// Report that the weights are loaded.
    NoteLoaded,
    /// Report that the input is on the device.
    NoteUploaded,
    /// Report a step that is done.
    NoteStep { step: usize, local: Shape, global: Option<Shape> },
    /// Report that all steps are done.
    NoteLoop,
    /// Report that the result is on the host.
    NoteResult { floats: usize },
}

/// What was wrong with a call of the runtime: `what`, its code and the runtime's
/// own words.
pub open spec fn runtime_complaint(what: Seq<char>, code: i32, msg: Seq<char>) -> Seq<char> {
    what + ": cuda error "@ + signed_dec(code as int) + " ("@ + msg + ")"@
}

/// Say what was wrong with a call of the runtime.
pub fn err(code: i32, what: &str, msg: &str) -> (r: String)
    ensures
        r@ == runtime_complaint(what@, code, msg@),
{
    let mut out = cat(what, ": cuda error ");
    out.append(signed_decimal(code).as_str());
    out.append(" (");
    out.append(msg);
    out.append(")");
    out
}

/// What is reported where performing a command fails with `code`, for which the
/// runtime has the words `msg`.
pub open spec fn cmd_complaint(cmd: Cmd, code: i32, msg: Seq<char>) -> Seq<char> {
    match cmd {
        Cmd::Malloc { .. } => runtime_complaint("cudaMalloc"@, code, msg),
        Cmd::BlobMalloc { .. } => runtime_complaint("cudaMalloc (weight arena)"@, code, msg),
        Cmd::BlobCopy { .. } => runtime_complaint("cudaMemcpy H2D (weight arena)"@, code, msg),
        Cmd::StageMalloc { .. } => runtime_complaint("cudaMalloc (staged weights)"@, code, msg),
        Cmd::StageCopy { .. } => runtime_complaint(
            "cudaMemcpy H2D (staged weights)"@,
            code,
            msg,
        ),
        Cmd::Upload { .. } | Cmd::Input { .. } | Cmd::HostFft { .. } => runtime_complaint(
            "cudaMemcpy H2D"@,
            code,
            msg,
        ),
        Cmd::Launch { .. } => runtime_complaint("cudaLaunchKernel"@, code, msg),
        Cmd::Gemm { role, .. } => match role {
            Role::Conv => "cublasSgemm failed: "@ + signed_dec(code as int),
            Role::Conv1x1 => "cublasSgemm (1x1) failed: "@ + signed_dec(code as int),
            Role::Phase(p) => "cublasSgemm (convT phase "@ + dec(p as nat) + ") failed: "@
                + signed_dec(code as int),
        },
        Cmd::Fft { key, .. } => if key.inverse {
            "cufftExecC2R failed: "@ + signed_dec(code as int)
        } else {
            "cufftExecR2C failed: "@ + signed_dec(code as int)
        },
        Cmd::Plan { key } => crate::fft::plan_complaint(code, key, key.layout()),
        Cmd::Fetch { .. } | Cmd::Download { .. } | Cmd::Dump { .. } => runtime_complaint(
            "cudaMemcpy D2H"@,
            code,
            msg,
        ),
        _ => runtime_complaint("cudaStreamSynchronize"@, code, msg),
    }
}

impl Cmd {
    /// Say what went wrong where performing the command fails.
    pub fn failure(&self, code: i32, msg: &str) -> (r: String)
        requires
            *self matches Cmd::Plan { key } ==> key.fits(),
        ensures
            r@ == cmd_complaint(*self, code, msg@),
    {
        match *self {
            Cmd::Malloc { .. } => err(code, "cudaMalloc", msg),
            Cmd::BlobMalloc { .. } => err(code, "cudaMalloc (weight arena)", msg),
            Cmd::BlobCopy { .. } => err(code, "cudaMemcpy H2D (weight arena)", msg),
            Cmd::StageMalloc { .. } => err(code, "cudaMalloc (staged weights)", msg),
            Cmd::StageCopy { .. } => err(code, "cudaMemcpy H2D (staged weights)", msg),
            Cmd::Upload { .. } | Cmd::Input { .. } | Cmd::HostFft { .. } => {
                err(code, "cudaMemcpy H2D", msg)
            },
            Cmd::Launch { .. } => err(code, "cudaLaunchKernel", msg),
            Cmd::Gemm { role, .. } => match role {
                Role::Conv => cat("cublasSgemm failed: ", signed_decimal(code).as_str()),
                Role::Conv1x1 => cat("cublasSgemm (1x1) failed: ", signed_decimal(code).as_str()),
                Role::Phase(p) => {
                    let mut out = cat("cublasSgemm (convT phase ", decimal_usize(p).as_str());
                    out.append(") failed: ");
                    out.append(signed_decimal(code).as_str());
                    out
                },
            },
            Cmd::Fft { key, .. } => if key.inverse {
                cat("cufftExecC2R failed: ", signed_decimal(code).as_str())
            } else {
                cat("cufftExecR2C failed: ", signed_decimal(code).as_str())
            },
            Cmd::Plan { key } => crate::fft::plan_failure(code, &key, &key.geometry()),
            Cmd::Fetch { .. } | Cmd::Download { .. } | Cmd::Dump { .. } => {
                err(code, "cudaMemcpy D2H", msg)
            },
            _ => err(code, "cudaStreamSynchronize", msg),
        }
    }
}

// ---------------------------------------------------------------------------
// Grids
// ---------------------------------------------------------------------------

/// The blocks of `block` threads that hold `n` threads.
pub open spec fn grid_len(n: int, block: int) -> int {
    (n + block - 1) / block
}

/// The blocks to launch for `n` threads, in the device's integers.
pub fn grid_for(n: usize, block: u32) -> (r: u32)
    requires
        0 < block,
        n + block <= u64::MAX,
    ensures
        r == grid_len(n as int, block as int) as u32,
{
    ((n as u64 + block as u64 - 1) / block as u64) as u32
}

/// A grid has a thread for everything, and no block to spare.
pub proof fn grid_is_least(n: int, block: int)
    requires
        0 <= n,
        0 < block,
    ensures
        n <= grid_len(n, block) * block < n + block,
{
    let q = grid_len(n, block);
    let m = n + block - 1;
    vstd::arithmetic::div_mod::lemma_fundamental_div_mod(m, block);
    vstd::arithmetic::div_mod::lemma_mod_bound(m, block);
    assert(q * block == block * q) by (nonlinear_arith);
}

// ---------------------------------------------------------------------------
// Recording
// ---------------------------------------------------------------------------

/// The switches that change what is recorded.
#[derive(Clone, Copy, PartialEq, Eq, Structural, Debug)]
pub struct Flags {
    /// Use the gather kernel for transposed convolutions.
    pub convt_gather: bool,
    /// Time the parts of the convolutions.
    pub profile_sub: bool,
    /// Wait for the device after every step.
    pub profile_sync: bool,
    /// Transform on the host.
    pub fft_host: bool,
    /// Time the steps.
    pub profile_ops: bool,
    /// Report progress.
    pub profile: bool,
    /// Write down the activations after this step.
    pub dump_after: Option<usize>,
}

/// Why recording stopped.
#[derive(Debug)]
pub enum Stop {
    /// The sizes do not work out: one does not fit in a machine word or is
    /// negative, a stride is zero, or a tensor has too few extents.
    Misfit,
    /// There is something to report.
    Fault(String),
}

/// Why recording stopped, as a value.
pub ghost enum StopView {
    Misfit,
    Fault(Seq<char>),
}

impl View for Stop {
    type V = StopView;

    open spec fn view(&self) -> StopView {
        match self {
            Stop::Misfit => StopView::Misfit,
            Stop::Fault(e) => StopView::Fault(e@),
        }
    }
}

/// Work for a device.
pub struct Cuda {
    pub cmds: Vec<Cmd>,
    /// The floats that the commands copy to the device, by their bits.
    pub data: Vec<u32>,
    /// Whether the weight blob is on the device.
    pub blob: bool,
    /// Whether the staged tensors are on the device.
    pub staged: bool,
    pub stop: Option<Stop>,
    pub flags: Flags,
}

/// Recorded work as a value.
#[verifier::ext_equal]
pub ghost struct Work {
    pub cmds: Seq<Cmd>,
    pub data: Seq<u32>,
    pub blob: bool,
    pub staged: bool,
    pub stop: Option<StopView>,
    pub flags: Flags,
}

impl View for Cuda {
    type V = Work;

    open spec fn view(&self) -> Work {
        Work {
            cmds: self.cmds@,
            data: self.data@,
            blob: self.blob,
            staged: self.staged,
            stop: match self.stop {
                Some(s) => Some(s@),
                None => None,
            },
            flags: self.flags,
        }
    }
}

impl Work {
    pub open spec fn going(self) -> bool {
        self.stop is None
    }

    /// Stop, unless that has happened before.
    #[verifier::opaque]
    pub open spec fn halt(self, s: StopView) -> Work {
        if self.going() {
            Work { stop: Some(s), ..self }
        } else {
            self
        }
    }

    #[verifier::opaque]
    pub open spec fn push(self, cmd: Cmd) -> Work {
        if self.going() {
            Work { cmds: self.cmds.push(cmd), ..self }
        } else {
            self
        }
    }

    /// Record `cmd` where a switch is on.
    pub open spec fn push_if(self, on: bool, cmd: Cmd) -> Work {
        if on {
            self.push(cmd)
        } else {
            self
        }
    }

    /// The buffer that the next allocation gives.
    pub open spec fn fresh(self, len: usize) -> Dev {
        Dev {
            addr: Addr { base: Base::Heap(self.cmds.len() as usize), offset: 0 },
            len,
            owned: true,
        }
    }

    /// After allocating `len` floats.
    pub open spec fn allocate(self, len: int) -> Work {
        if len * 4 <= usize::MAX {
            self.push(Cmd::Malloc { id: self.cmds.len() as usize, floats: len as usize })
        } else {
            self.halt(StopView::Misfit)
        }
    }

    /// After giving a buffer up. Windows own nothing.
    pub open spec fn free(self, d: Dev) -> Work {
        match d.addr.base {
            Base::Heap(id) => if d.owned {
                self.push(Cmd::Free { id, floats: d.len })
            } else {
                self
            },
            _ => self,
        }
    }

    /// After giving up a buffer that may be absent.
    pub open spec fn free_acts(self, a: Option<DActs>) -> Work {
        match a {
            Some(a) => self.free(a.buf),
            None => self,
        }
    }

    /// After launching a kernel with `n` threads.
    pub open spec fn launch(self, call: Call, n: int) -> Work {
        if n + BLOCK <= u64::MAX {
            self.push(Cmd::Launch { call, grid: grid_len(n, BLOCK as int) as u32 })
        } else {
            self.halt(StopView::Misfit)
        }
    }

    /// After waiting for the device where a switch is on.
    pub open spec fn sync_if(self, on: bool) -> Work {
        self.push_if(on, Cmd::Sync)
    }

    /// After copying floats to a buffer of their own.
    pub open spec fn upload(self, bits: Seq<u32>) -> Work {
        let p = self.allocate(bits.len() as int);
        if p.going() && bits.len() > 0 {
            Work {
                data: p.data + bits,
                ..p.push(
                    Cmd::Upload {
                        to: self.fresh(bits.len() as usize).addr,
                        from: p.data.len() as usize,
                        floats: bits.len() as usize,
                    },
                )
            }
        } else {
            p
        }
    }
}

/// Recording a command changes nothing but the commands.
pub broadcast proof fn push_keeps(p: Work, cmd: Cmd)
    ensures
        (#[trigger] p.push(cmd)).flags == p.flags,
        p.push(cmd).stop == p.stop,
        p.push(cmd).data == p.data,
        p.push(cmd).blob == p.blob,
        p.push(cmd).staged == p.staged,
        p.cmds.len() <= p.push(cmd).cmds.len() <= p.cmds.len() + 1,
        p.going() ==> p.push(cmd).cmds.len() == p.cmds.len() + 1,
        !p.going() ==> p.push(cmd) == p,
{
    reveal(Work::push);
}

/// Stopping changes nothing but that.
pub broadcast proof fn halt_keeps(p: Work, s: StopView)
    ensures
        (#[trigger] p.halt(s)).flags == p.flags,
        p.halt(s).cmds == p.cmds,
        p.halt(s).data == p.data,
        p.halt(s).blob == p.blob,
        p.halt(s).staged == p.staged,
        !p.halt(s).going(),
        !p.going() ==> p.halt(s) == p,
{
    reveal(Work::halt);
}

pub broadcast group group_work {
    push_keeps,
    halt_keeps,
}

impl Cuda {
    /// Nothing recorded yet.
    pub fn new(flags: Flags) -> (c: Cuda)
        ensures
            c@ == (Work {
                cmds: Seq::empty(),
                data: Seq::empty(),
                blob: false,
                staged: false,
                stop: None,
                flags,
            }),
    {
        Cuda {
            cmds: Vec::new(),
            data: Vec::new(),
            blob: false,
            staged: false,
            stop: None,
            flags,
        }
    }

    pub(crate) fn push(&mut self, cmd: Cmd)
        ensures
            final(self)@ == old(self)@.push(cmd),
    {
        reveal(Work::push);
        if self.stop.is_none() {
            self.cmds.push(cmd);
        }
    }

    pub(crate) fn push_if(&mut self, on: bool, cmd: Cmd)
        ensures
            final(self)@ == old(self)@.push_if(on, cmd),
    {
        if on {
            self.push(cmd);
        }
    }

    pub(crate) fn misfit(&mut self)
        ensures
            final(self)@ == old(self)@.halt(StopView::Misfit),
    {
        reveal(Work::halt);
        if self.stop.is_none() {
            self.stop = Some(Stop::Misfit);
        }
    }

    pub(crate) fn fault(&mut self, e: String)
        ensures
            final(self)@ == old(self)@.halt(StopView::Fault(e@)),
    {
        reveal(Work::halt);
        if self.stop.is_none() {
            self.stop = Some(Stop::Fault(e));
        }
    }

    /// Allocate a buffer of `len` floats.
    pub fn allocate(&mut self, len: usize) -> (d: Dev)
        ensures
            d == old(self)@.fresh(len),
            final(self)@ == old(self)@.allocate(len as int),
    {
        let id = self.cmds.len();
        if len <= usize::MAX / 4 {
            self.push(Cmd::Malloc { id, floats: len });
        } else {
            self.misfit();
        }
        Dev { addr: Addr { base: Base::Heap(id), offset: 0 }, len, owned: true }
    }

    /// Give a buffer up.
    pub fn free(&mut self, d: &Dev)
        ensures
            final(self)@ == old(self)@.free(*d),
    {
        match d.addr.base {
            Base::Heap(id) => {
                if d.owned {
                    self.push(Cmd::Free { id, floats: d.len });
                }
            },
            _ => {},
        }
    }

    pub(crate) fn free_acts(&mut self, a: &Option<DActs>)
        ensures
            final(self)@ == old(self)@.free_acts(*a),
    {
        match a {
            Some(a) => {
                self.free(&a.buf);
            },
            None => {},
        }
    }

    /// Launch a kernel with `n` threads.
    pub fn launch_kernel(&mut self, call: Call, n: usize)
        ensures
            final(self)@ == old(self)@.launch(call, n as int),
    {
        if n as u64 <= u64::MAX - BLOCK as u64 {
            self.push(Cmd::Launch { call, grid: grid_for(n, BLOCK) });
        } else {
            self.misfit();
        }
    }

    /// Wait for everything launched so far.
    pub fn sync(&mut self)
        ensures
            final(self)@ == old(self)@.push(Cmd::Sync),
    {
        self.push(Cmd::Sync);
    }

    /// Copy floats, given by their bits, to a buffer of their own.
    pub fn upload(&mut self, bits: &Vec<u32>) -> (d: Dev)
        ensures
            d == old(self)@.fresh(bits@.len() as usize),
            final(self)@ == old(self)@.upload(bits@),
    {
        broadcast use group_work;

        let n = bits.len();
        let d = self.allocate(n);
        if self.stop.is_none() && n > 0 {
            let from = self.data.len();
            self.push(Cmd::Upload { to: d.addr, from, floats: n });
            let mut i: usize = 0;
            let ghost before = self@;
            assert(before.data + bits@.take(0) =~= before.data);
            while i < n
                invariant
                    i <= n,
                    n == bits@.len(),
                    self@ == (Work { data: before.data + bits@.take(i as int), ..before }),
                decreases n - i,
            {
                self.data.push(bits[i]);
                assert(self.data@ =~= before.data + bits@.take(i + 1));
                i += 1;
            }
            assert(bits@.take(n as int) =~= bits@);
        }
        d
    }

    /// Copy a buffer to the host.
    pub fn download(&mut self, d: &Dev)
        ensures
            final(self)@ == old(self)@.push(Cmd::Download { src: *d }),
    {
        self.push(Cmd::Download { src: *d });
    }
}

// ---------------------------------------------------------------------------
// Protocols
// ---------------------------------------------------------------------------

/// A call hands its arguments over at the places where the kernel declares them: what
/// it reads and writes first, then the extents, each under its own name.
pub proof fn arguments_have_their_places(call: Call)
    ensures
        ({
            let given = arguments(call);
            match call {
                Call::Im2col { src, col, cin, h, w, kh, kw, ph, pw, stride, oh, ow, reflect } => {
                    &&& given.len() == 13
                    &&& given[0] == Arg::Ptr(src)
                    &&& given[1] == Arg::Ptr(col)
                    &&& given[2] == Arg::Int(cin)
                    &&& given[3] == Arg::Int(h)
                    &&& given[4] == Arg::Int(w)
                    &&& given[5] == Arg::Int(kh)
                    &&& given[6] == Arg::Int(kw)
                    &&& given[7] == Arg::Int(ph)
                    &&& given[8] == Arg::Int(pw)
                    &&& given[9] == Arg::Int(stride)
                    &&& given[10] == Arg::Int(oh)
                    &&& given[11] == Arg::Int(ow)
                    &&& given[12] == Arg::Int(reflect)
                },
                Call::ConvTranspose { src, weight, bias, out, cin, cout, h, w, oh, ow, kh, kw, stride, pad } => {
                    &&& given.len() == 14
                    &&& given[0] == Arg::Ptr(src)
                    &&& given[1] == Arg::Ptr(weight)
                    &&& given[2] == Arg::Ptr(bias)
                    &&& given[3] == Arg::Ptr(out)
                    &&& given[4] == Arg::Int(cin)
                    &&& given[5] == Arg::Int(cout)
                    &&& given[6] == Arg::Int(h)
                    &&& given[7] == Arg::Int(w)
                    &&& given[8] == Arg::Int(oh)
                    &&& given[9] == Arg::Int(ow)
                    &&& given[10] == Arg::Int(kh)
                    &&& given[11] == Arg::Int(kw)
                    &&& given[12] == Arg::Int(stride)
                    &&& given[13] == Arg::Int(pad)
                },
                Call::BnRelu { x, scale, shift, plane, channels } => {
                    &&& given.len() == 5
                    &&& given[0] == Arg::Ptr(x)
                    &&& given[1] == Arg::Ptr(scale)
                    &&& given[2] == Arg::Ptr(shift)
                    &&& given[3] == Arg::Long(plane)
                    &&& given[4] == Arg::Int(channels)
                },
                Call::Sigmoid { x, n } => {
                    &&& given.len() == 2
                    &&& given[0] == Arg::Ptr(x)
                    &&& given[1] == Arg::Long(n)
                },
                Call::AddInplace { a, b, n } => {
                    &&& given.len() == 3
                    &&& given[0] == Arg::Ptr(a)
                    &&& given[1] == Arg::Ptr(b)
                    &&& given[2] == Arg::Long(n)
                },
                Call::Scale { x, n, area } => {
                    &&& given.len() == 3
                    &&& given[0] == Arg::Ptr(x)
                    &&& given[1] == Arg::Long(n)
                    &&& given[2] == Arg::Ortho(area)
                },
                Call::ReflectPad { src, out, c, h, w, pad } => {
                    &&& given.len() == 6
                    &&& given[0] == Arg::Ptr(src)
                    &&& given[1] == Arg::Ptr(out)
                    &&& given[2] == Arg::Int(c)
                    &&& given[3] == Arg::Int(h)
                    &&& given[4] == Arg::Int(w)
                    &&& given[5] == Arg::Int(pad)
                },
                Call::Avgpool2x2 { src, out, c, h, w } => {
                    &&& given.len() == 5
                    &&& given[0] == Arg::Ptr(src)
                    &&& given[1] == Arg::Ptr(out)
                    &&& given[2] == Arg::Int(c)
                    &&& given[3] == Arg::Int(h)
                    &&& given[4] == Arg::Int(w)
                },
                Call::CopyPlane { src, out, n } => {
                    &&& given.len() == 3
                    &&& given[0] == Arg::Ptr(src)
                    &&& given[1] == Arg::Ptr(out)
                    &&& given[2] == Arg::Long(n)
                },
                Call::SpecPack { complex, packed, half, plane, area } => {
                    &&& given.len() == 5
                    &&& given[0] == Arg::Ptr(complex)
                    &&& given[1] == Arg::Ptr(packed)
                    &&& given[2] == Arg::Int(half)
                    &&& given[3] == Arg::Int(plane)
                    &&& given[4] == Arg::Ortho(area)
                },
                Call::SpecUnpack { packed, complex, half, plane } => {
                    &&& given.len() == 4
                    &&& given[0] == Arg::Ptr(packed)
                    &&& given[1] == Arg::Ptr(complex)
                    &&& given[2] == Arg::Int(half)
                    &&& given[3] == Arg::Int(plane)
                },
                Call::ConvtCol { src, col, cin, h, w, py, px, taps, n, oh, ow } => {
                    &&& given.len() == 11
                    &&& given[0] == Arg::Ptr(src)
                    &&& given[1] == Arg::Ptr(col)
                    &&& given[2] == Arg::Int(cin)
                    &&& given[3] == Arg::Int(h)
                    &&& given[4] == Arg::Int(w)
                    &&& given[5] == Arg::Int(py)
                    &&& given[6] == Arg::Int(px)
                    &&& given[7] == Arg::Int(taps)
                    &&& given[8] == Arg::Int(n)
                    &&& given[9] == Arg::Int(oh)
                    &&& given[10] == Arg::Int(ow)
                },
                Call::ConvtPut { phase, out, bias, cout, n, py, px, oh, ow, mode } => {
                    &&& given.len() == 10
                    &&& given[0] == Arg::Ptr(phase)
                    &&& given[1] == Arg::Ptr(out)
                    &&& given[2] == Arg::Ptr(bias)
                    &&& given[3] == Arg::Int(cout)
                    &&& given[4] == Arg::Int(n)
                    &&& given[5] == Arg::Int(py)
                    &&& given[6] == Arg::Int(px)
                    &&& given[7] == Arg::Int(oh)
                    &&& given[8] == Arg::Int(ow)
                    &&& given[9] == Arg::Int(mode)
                },
                Call::BiasPlane { out, bias, cout, n } => {
                    &&& given.len() == 4
                    &&& given[0] == Arg::Ptr(out)
                    &&& given[1] == Arg::Ptr(bias)
                    &&& given[2] == Arg::Int(cout)
                    &&& given[3] == Arg::Long(n)
                },
                Call::Conv7x7 { src, weight, bias, out, cin, cout, h_in, w_in, h_out, w_out } => {
                    &&& given.len() == 10
                    &&& given[0] == Arg::Ptr(src)
                    &&& given[1] == Arg::Ptr(weight)
                    &&& given[2] == maybe_ptr(bias)
                    &&& given[3] == Arg::Ptr(out)
                    &&& given[4] == Arg::Int(cin)
                    &&& given[5] == Arg::Int(cout)
                    &&& given[6] == Arg::Int(h_in)
                    &&& given[7] == Arg::Int(w_in)
                    &&& given[8] == Arg::Int(h_out)
                    &&& given[9] == Arg::Int(w_out)
                },
                Call::BnReluAdd { x, skip, scale, shift, plane, channels } => {
                    &&& given.len() == 6
                    &&& given[0] == Arg::Ptr(x)
                    &&& given[1] == maybe_ptr(skip)
                    &&& given[2] == Arg::Ptr(scale)
                    &&& given[3] == Arg::Ptr(shift)
                    &&& given[4] == Arg::Long(plane)
                    &&& given[5] == Arg::Int(channels)
                },
            }
        }),
{
}

/// A call runs the kernel of its own name.
pub proof fn calls_run_their_kernels(call: Call)
    ensures
        symbol(kernel_of(call)) == match call {
            Call::Im2col { .. } => "k_im2col"@,
            Call::ConvTranspose { .. } => "k_conv_transpose"@,
            Call::BnRelu { .. } => "k_bn_relu"@,
            Call::Sigmoid { .. } => "k_sigmoid"@,
            Call::AddInplace { .. } => "k_add_inplace"@,
            Call::Scale { .. } => "k_scale"@,
            Call::ReflectPad { .. } => "k_reflect_pad"@,
            Call::Avgpool2x2 { .. } => "k_avgpool2x2"@,
            Call::CopyPlane { .. } => "k_copy_plane"@,
            Call::SpecPack { .. } => "k_spec_pack"@,
            Call::SpecUnpack { .. } => "k_spec_unpack"@,
            Call::ConvtCol { .. } => "k_convt_col"@,
            Call::ConvtPut { .. } => "k_convt_put"@,
            Call::BiasPlane { .. } => "k_bias_plane"@,
            Call::Conv7x7 { .. } => "k_conv7x7"@,
            Call::BnReluAdd { .. } => "k_bn_relu_add"@,
        },
{
}

/// Windows tile a block: the first one begins where the block does, and where one ends
/// the window of the planes that follow begins.
pub proof fn windows_tile(a: DActs, first: int, some: usize, more: usize)
    requires
        a.view_fits(first, some as int),
        a.view_fits(first + some, more as int),
    ensures
        a.window(0, some).buf.addr == a.buf.addr,
        a.window(first, some).buf.addr.base == a.buf.addr.base,
        a.window(first + some, more).buf.addr.offset == a.window(first, some).buf.addr.offset + 4
            * a.window(first, some).buf.len,
        a.window(first, some).buf.len == some * (a.h * a.w),
        a.window(first, some).c == some,
        a.window(first, some).h == a.h,
        a.window(first, some).w == a.w,
        !a.window(first, some).buf.owned,
{
    let plane = a.plane_len();
    assert(0 * plane == 0) by (nonlinear_arith);
    assert((first + some) * plane * 4 == first * plane * 4 + 4 * (some * plane))
        by (nonlinear_arith);
    assert(0 <= first * plane) by (nonlinear_arith)
        requires
            0 <= first,
            plane == a.h * a.w,
    ;
    assert(0 <= some * plane) by (nonlinear_arith)
        requires
            plane == a.h * a.w,
    ;
}

} // verus!
