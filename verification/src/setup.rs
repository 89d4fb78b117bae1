//! Bringing the device up: which libraries, symbols and calls, in which order, and
//! what is said where one of them fails.

use vstd::prelude::*;

use crate::cuda::{all_kernels, kernels, symbol, Kernel};
use crate::text::{
    cat, chars_of, digits_value, find_char, find_char_in, parse_usize, part, reads_as_usize,
    same_chars, signed_dec, signed_decimal, string_of, unsigned_digits, views, words, words_of,
};

verus! {

/// Compute capabilities present in the kernel image.
pub open spec fn kernel_archs() -> Seq<char> {
    "6.1, 7.5, 8.0, 8.6, 8.9, 9.0"@
}

/// The code of a driver library that does not match the kernel module.
pub const FORWARD_COMPATIBILITY: i32 = 804;

// ---------------------------------------------------------------------------
// The driver
// ---------------------------------------------------------------------------

/// The first line of a text.
pub open spec fn first_line(text: Seq<char>) -> Seq<char> {
    match find_char(text, '\n', 0) {
        Some(i) => text.take(i),
        None => text,
    }
}

/// The kernel module's version in the text of `/proc/driver/nvidia/version`: the
/// eighth word of the first line, where that line speaks of a `Kernel`.
pub open spec fn module_version(text: Seq<char>) -> Option<Seq<char>> {
    let w = words(first_line(text));
    if w.contains("Kernel"@) && w.len() > 7 {
        Some(w[7])
    } else {
        None
    }
}

/// Read the kernel module's version from the text of its version file.
pub fn driver_version(text: &str) -> (r: Option<String>)
    ensures
        match r {
            Some(v) => module_version(text@) == Some(v@),
            None => module_version(text@) is None,
        },
{
    let all = chars_of(text);
    let line = match find_char_in(all.as_slice(), '\n') {
        Some(i) => {
            proof {
                crate::text::find_char_is_first(all@, '\n', 0);
            }
            let l = part(all.as_slice(), 0, i);
            assert(l@ =~= all@.take(i as int));
            l
        },
        None => all.as_slice(),
    };
    assert(line@ == first_line(text@));
    let parts = words_of(line);
    let kernel = chars_of("Kernel");
    let ghost w = words(first_line(text@));
    assert(views(parts@) == w);
    let mut found = false;
    let mut i: usize = 0;
    while i < parts.len()
        invariant
            i <= parts@.len(),
            w == views(parts@),
            kernel@ == "Kernel"@,
            found == exists|j: int| 0 <= j < i && #[trigger] w[j] == "Kernel"@,
        decreases parts@.len() - i,
    {
        assert(w[i as int] == parts@[i as int]@);
        if same_chars(parts[i], kernel.as_slice()) {
            found = true;
        }
        i += 1;
    }
    assert(found == w.contains("Kernel"@));
    if found && parts.len() > 7 {
        assert(w[7] == parts@[7]@);
        return Some(string_of(parts[7]));
    }
    None
}

/// The explanation of a `cuInit` failure, with the kernel module's version where
/// it is known.
pub open spec fn init_complaint(code: i32, version: Option<Seq<char>>) -> Seq<char> {
    let head = "CUDA is not available in this process (cuInit error "@ + signed_dec(code as int)
        + ")."@;
    let module = match version {
        Some(v) => head + "\n  nvidia kernel module: "@ + v,
        None => head,
    };
    if code == FORWARD_COMPATIBILITY {
        module + "\n  libcuda.so.1 does not match the loaded kernel module, so cuInit"@
            + "\n  fails with error 804.  Point LD_LIBRARY_PATH at the userspace"@
            + "\n  driver matching the module, e.g."@
            + "\n    LD_LIBRARY_PATH=/home/jacob/nvidia-535.216.01"@
    } else {
        module
    }
}

/// Explain a `cuInit` failure in terms of the userspace/kernel driver split.
pub fn unavailable_reason(code: i32, version: &Option<String>) -> (r: String)
    ensures
        r@ == init_complaint(
            code,
            match *version {
                Some(v) => Some(v@),
                None => None,
            },
        ),
{
    let mut out = cat(
        "CUDA is not available in this process (cuInit error ",
        signed_decimal(code).as_str(),
    );
    out.append(").");
    if let Some(v) = version {
        out.append("\n  nvidia kernel module: ");
        out.append(v.as_str());
    }
    if code == FORWARD_COMPATIBILITY {
        out.append("\n  libcuda.so.1 does not match the loaded kernel module, so cuInit");
        out.append("\n  fails with error 804.  Point LD_LIBRARY_PATH at the userspace");
        out.append("\n  driver matching the module, e.g.");
        out.append("\n    LD_LIBRARY_PATH=/home/jacob/nvidia-535.216.01");
    }
    out
}

/// What the driver says of the device. Every answer is optional.
pub struct Device {
    pub name: Option<String>,
    /// The compute capability, major and minor.
    pub capability: Option<(i32, i32)>,
}

/// What is added to the complaint about a kernel image that does not load: the
/// device, where the driver knows one, and what the image is made for.
pub open spec fn device_text(d: Option<Device>) -> Seq<char> {
    match d {
        None => " (embedded kernels target compute "@ + kernel_archs() + ")"@,
        Some(d) => " on \""@ + (match d.name {
            Some(n) => n@,
            None => "unknown device"@,
        }) + "\""@ + (match d.capability {
            Some(c) => " (compute capability "@ + signed_dec(c.0 as int) + "."@ + signed_dec(
                c.1 as int,
            ) + ")"@,
            None => Seq::empty(),
        }) + "; the embedded kernel image targets compute "@ + kernel_archs(),
    }
}

/// Describe the device after the kernel image has failed to load. A driver that
/// cannot answer must still yield a usable message.
pub fn device_note(d: &Option<Device>) -> (r: String)
    ensures
        r@ == device_text(*d),
{
    match d {
        None => {
            let mut out = cat(
                " (embedded kernels target compute ",
                "6.1, 7.5, 8.0, 8.6, 8.9, 9.0",
            );
            out.append(")");
            out
        },
        Some(d) => {
            let mut out = " on \"".to_owned();
            match &d.name {
                Some(n) => {
                    out.append(n.as_str());
                },
                None => {
                    out.append("unknown device");
                },
            }
            out.append("\"");
            let mut cap = String::new();
            if let Some(c) = &d.capability {
                cap.append(" (compute capability ");
                cap.append(signed_decimal(c.0).as_str());
                cap.append(".");
                cap.append(signed_decimal(c.1).as_str());
                cap.append(")");
                assert(cap@ =~= " (compute capability "@ + signed_dec(c.0 as int) + "."@
                    + signed_dec(c.1 as int) + ")"@);
            }
            out.append(cap.as_str());
            out.append("; the embedded kernel image targets compute ");
            out.append("6.1, 7.5, 8.0, 8.6, 8.9, 9.0");
            out
        },
    }
}

// ---------------------------------------------------------------------------
// Stages
// ---------------------------------------------------------------------------

/// The libraries, each of which has two names.
#[derive(Clone, Copy, PartialEq, Eq, Structural, Debug)]
pub enum Lib {
    Driver,
    Cudart,
    Cublas,
    Cufft,
}

/// The names a library is tried under, in order.
pub open spec fn lib_name(lib: Lib, attempt: nat) -> Seq<char> {
    match lib {
        Lib::Driver => if attempt == 0 {
            "libcuda.so.1"@
        } else {
            "libcuda.so"@
        },
        Lib::Cudart => if attempt == 0 {
            "libcudart.so.12"@
        } else {
            "libcudart.so"@
        },
        Lib::Cublas => if attempt == 0 {
            "libcublas.so.12"@
        } else {
            "libcublas.so"@
        },
        Lib::Cufft => if attempt == 0 {
            "libcufft.so.11"@
        } else {
            "libcufft.so"@
        },
    }
}

impl Lib {
    /// The name to try a library under.
    pub fn name(self, attempt: usize) -> (r: &'static str)
        ensures
            r@ == lib_name(self, attempt as nat),
    {
        match self {
            Lib::Driver => if attempt == 0 {
                "libcuda.so.1"
            } else {
                "libcuda.so"
            },
            Lib::Cudart => if attempt == 0 {
                "libcudart.so.12"
            } else {
                "libcudart.so"
            },
            Lib::Cublas => if attempt == 0 {
                "libcublas.so.12"
            } else {
                "libcublas.so"
            },
            Lib::Cufft => if attempt == 0 {
                "libcufft.so.11"
            } else {
                "libcufft.so"
            },
        }
    }
}

/// The entry points.
#[derive(Clone, Copy, PartialEq, Eq, Structural, Debug)]
pub enum Entry {
    CuInit,
    CublasCreate,
    StreamCreate,
    ModuleLoadData,
    ModuleGetFunction,
    Malloc,
    Free,
    Memcpy,
    StreamSynchronize,
    GetErrorString,
    LaunchKernel,
    CublasSetStream,
    CublasSgemm,
    CufftPlanMany,
    CufftSetStream,
    CufftExecR2C,
    CufftExecC2R,
}

/// The library that an entry point is in.
pub open spec fn entry_lib(e: Entry) -> Lib {
    match e {
        Entry::CuInit | Entry::ModuleLoadData | Entry::ModuleGetFunction | Entry::LaunchKernel => {
            Lib::Driver
        },
        Entry::StreamCreate
        | Entry::Malloc
        | Entry::Free
        | Entry::Memcpy
        | Entry::StreamSynchronize
        | Entry::GetErrorString => Lib::Cudart,
        Entry::CublasCreate | Entry::CublasSetStream | Entry::CublasSgemm => Lib::Cublas,
        Entry::CufftPlanMany
        | Entry::CufftSetStream
        | Entry::CufftExecR2C
        | Entry::CufftExecC2R => Lib::Cufft,
    }
}

/// The symbol of an entry point.
pub open spec fn entry_symbol(e: Entry) -> Seq<char> {
    match e {
        Entry::CuInit => "cuInit"@,
        Entry::CublasCreate => "cublasCreate_v2"@,
        Entry::StreamCreate => "cudaStreamCreate"@,
        Entry::ModuleLoadData => "cuModuleLoadData"@,
        Entry::ModuleGetFunction => "cuModuleGetFunction"@,
        Entry::Malloc => "cudaMalloc"@,
        Entry::Free => "cudaFree"@,
        Entry::Memcpy => "cudaMemcpy"@,
        Entry::StreamSynchronize => "cudaStreamSynchronize"@,
        Entry::GetErrorString => "cudaGetErrorString"@,
        Entry::LaunchKernel => "cuLaunchKernel"@,
        Entry::CublasSetStream => "cublasSetStream_v2"@,
        Entry::CublasSgemm => "cublasSgemm_v2"@,
        Entry::CufftPlanMany => "cufftPlanMany"@,
        Entry::CufftSetStream => "cufftSetStream"@,
        Entry::CufftExecR2C => "cufftExecR2C"@,
        Entry::CufftExecC2R => "cufftExecC2R"@,
    }
}

impl Entry {
    /// The library that the entry point is in.
    pub fn lib(self) -> (r: Lib)
        ensures
            r == entry_lib(self),
    {
        match self {
            Entry::CuInit
            | Entry::ModuleLoadData
            | Entry::ModuleGetFunction
            | Entry::LaunchKernel => Lib::Driver,
            Entry::StreamCreate
            | Entry::Malloc
            | Entry::Free
            | Entry::Memcpy
            | Entry::StreamSynchronize
            | Entry::GetErrorString => Lib::Cudart,
            Entry::CublasCreate | Entry::CublasSetStream | Entry::CublasSgemm => Lib::Cublas,
            Entry::CufftPlanMany
            | Entry::CufftSetStream
            | Entry::CufftExecR2C
            | Entry::CufftExecC2R => Lib::Cufft,
        }
    }

    /// The entry point's symbol.
    pub fn name(self) -> (r: &'static str)
        ensures
            r@ == entry_symbol(self),
    {
        match self {
            Entry::CuInit => "cuInit",
            Entry::CublasCreate => "cublasCreate_v2",
            Entry::StreamCreate => "cudaStreamCreate",
            Entry::ModuleLoadData => "cuModuleLoadData",
            Entry::ModuleGetFunction => "cuModuleGetFunction",
            Entry::Malloc => "cudaMalloc",
            Entry::Free => "cudaFree",
            Entry::Memcpy => "cudaMemcpy",
            Entry::StreamSynchronize => "cudaStreamSynchronize",
            Entry::GetErrorString => "cudaGetErrorString",
            Entry::LaunchKernel => "cuLaunchKernel",
            Entry::CublasSetStream => "cublasSetStream_v2",
            Entry::CublasSgemm => "cublasSgemm_v2",
            Entry::CufftPlanMany => "cufftPlanMany",
            Entry::CufftSetStream => "cufftSetStream",
            Entry::CufftExecR2C => "cufftExecR2C",
            Entry::CufftExecC2R => "cufftExecC2R",
        }
    }
}

/// One thing to do on the way to a usable device.
#[derive(Clone, Copy, PartialEq, Eq, Structural, Debug)]
pub enum Stage {
    /// Open a library.
    Open(Lib),
    /// Find an entry point.
    Resolve(Entry),
    /// Initialise the driver.
    Init,
    /// Create the BLAS handle.
    CreateBlas,
    /// Create the stream.
    CreateStream,
    /// Load the kernel image.
    LoadModule,
    /// Put BLAS and FFT on the stream.
    SetStreams,
    /// Find a kernel in the image.
    Find(Kernel),
}

/// The stages before the kernels are looked up. The driver comes first, so that
/// the runtime finds it, and nothing else is opened before the driver has been
/// initialised.
pub open spec fn opening() -> Seq<Stage> {
    seq![
        Stage::Open(Lib::Driver),
        Stage::Resolve(Entry::CuInit),
        Stage::Init,
        Stage::Open(Lib::Cudart),
        Stage::Open(Lib::Cublas),
        Stage::Open(Lib::Cufft),
        Stage::Resolve(Entry::CublasCreate),
        Stage::CreateBlas,
        Stage::Resolve(Entry::StreamCreate),
        Stage::CreateStream,
        Stage::Resolve(Entry::ModuleLoadData),
        Stage::LoadModule,
        Stage::Resolve(Entry::ModuleGetFunction),
        Stage::Resolve(Entry::Malloc),
        Stage::Resolve(Entry::Free),
        Stage::Resolve(Entry::Memcpy),
        Stage::Resolve(Entry::StreamSynchronize),
        Stage::Resolve(Entry::GetErrorString),
        Stage::Resolve(Entry::LaunchKernel),
        Stage::Resolve(Entry::CublasSetStream),
        Stage::Resolve(Entry::CublasSgemm),
        Stage::Resolve(Entry::CufftPlanMany),
        Stage::Resolve(Entry::CufftSetStream),
        Stage::Resolve(Entry::CufftExecR2C),
        Stage::Resolve(Entry::CufftExecC2R),
        Stage::SetStreams,
    ]
}

/// All stages, in order.
pub open spec fn all_stages() -> Seq<Stage> {
    opening() + kernels().map_values(|k: Kernel| Stage::Find(k))
}

fn stages() -> (r: Vec<Stage>)
    ensures
        r@ == all_stages(),
{
    let mut out: Vec<Stage> = vec![
        Stage::Open(Lib::Driver),
        Stage::Resolve(Entry::CuInit),
        Stage::Init,
        Stage::Open(Lib::Cudart),
        Stage::Open(Lib::Cublas),
        Stage::Open(Lib::Cufft),
        Stage::Resolve(Entry::CublasCreate),
        Stage::CreateBlas,
        Stage::Resolve(Entry::StreamCreate),
        Stage::CreateStream,
        Stage::Resolve(Entry::ModuleLoadData),
        Stage::LoadModule,
        Stage::Resolve(Entry::ModuleGetFunction),
        Stage::Resolve(Entry::Malloc),
        Stage::Resolve(Entry::Free),
        Stage::Resolve(Entry::Memcpy),
        Stage::Resolve(Entry::StreamSynchronize),
        Stage::Resolve(Entry::GetErrorString),
        Stage::Resolve(Entry::LaunchKernel),
        Stage::Resolve(Entry::CublasSetStream),
        Stage::Resolve(Entry::CublasSgemm),
        Stage::Resolve(Entry::CufftPlanMany),
        Stage::Resolve(Entry::CufftSetStream),
        Stage::Resolve(Entry::CufftExecR2C),
        Stage::Resolve(Entry::CufftExecC2R),
        Stage::SetStreams,
    ];
    let ks = all_kernels();
    let ghost found = kernels().map_values(|k: Kernel| Stage::Find(k));
    let mut i: usize = 0;
    assert(out@ =~= opening() + found.take(0));
    while i < ks.len()
        invariant
            i <= ks@.len(),
            ks@ == kernels(),
            found == kernels().map_values(|k: Kernel| Stage::Find(k)),
            out@ == opening() + found.take(i as int),
        decreases ks@.len() - i,
    {
        out.push(Stage::Find(ks[i]));
        assert(out@ =~= opening() + found.take(i + 1));
        i += 1;
    }
    assert(found.take(i as int) =~= found);
    out
}

/// How performing a stage came out.
pub enum Event {
    /// A library or an entry point is there.
    Linked,
    /// It is not, for a reason that the linker may give.
    NotLinked(Option<String>),
    /// A call returned this code.
    Returned(i32),
}

/// Whether a stage can come out like this.
pub open spec fn possible(s: Stage, e: Event) -> bool {
    match s {
        Stage::Open(_) | Stage::Resolve(_) => e is Linked || e is NotLinked,
        _ => e is Returned,
    }
}

/// What comes of an event.
pub enum Outcome {
    /// There is more to do, or the device is ready.
    Going,
    /// The driver would not come up. The explanation asks for the kernel module's
    /// version.
    Unavailable(i32),
    /// The kernel image would not load. The complaint asks for the device.
    NotLoaded(i32),
    Failed(String),
}

/// The linker's reason, or that there is none.
pub open spec fn link_reason(e: Option<String>) -> Seq<char> {
    match e {
        Some(e) => e@,
        None => "unknown dlopen/dlsym error"@,
    }
}

/// Where bringing up the device has come to: the stage, and how often its library
/// has been tried.
pub ghost struct Progress {
    pub at: nat,
    pub attempt: nat,
}

/// A library is tried under its second name before its absence is a failure.
pub open spec fn retries(s: Stage, attempt: nat, e: Event) -> bool {
    s is Open && e is NotLinked && attempt == 0
}

/// Whether an event lets the work go on with the next stage. What the calls that
/// set the streams return is passed over.
pub open spec fn passes(s: Stage, e: Event) -> bool {
    match e {
        Event::Linked => true,
        Event::NotLinked(_) => false,
        Event::Returned(code) => code == 0 || s is SetStreams,
    }
}

/// Where an event leads.
pub open spec fn progressed(p: Progress, e: Event) -> Progress {
    let s = all_stages()[p.at as int];
    if passes(s, e) {
        Progress { at: p.at + 1, attempt: 0 }
    } else if retries(s, p.attempt, e) {
        Progress { at: p.at, attempt: 1 }
    } else {
        p
    }
}

/// What comes of an event in a stage.
pub open spec fn comes_of(s: Stage, attempt: nat, e: Event, o: Outcome) -> bool {
    if passes(s, e) || retries(s, attempt, e) {
        o is Going
    } else {
        match e {
            Event::Returned(code) => match s {
                Stage::Init => o == Outcome::Unavailable(code),
                Stage::LoadModule => o == Outcome::NotLoaded(code),
                Stage::CreateBlas => o matches Outcome::Failed(m) && m@
                    == "cublasCreate_v2 failed: "@ + signed_dec(code as int),
                Stage::CreateStream => o matches Outcome::Failed(m) && m@
                    == "cudaStreamCreate failed: "@ + signed_dec(code as int),
                Stage::Find(k) => o matches Outcome::Failed(m) && m@ == "cuModuleGetFunction("@
                    + symbol(k) + ") failed: "@ + signed_dec(code as int),
                _ => true,
            },
            Event::NotLinked(e) => match s {
                Stage::Open(lib) => o matches Outcome::Failed(m) && m@ == lib_name(lib, attempt)
                    + ": "@ + link_reason(e),
                Stage::Resolve(entry) => o matches Outcome::Failed(m) && m@ == entry_symbol(entry)
                    + ": "@ + link_reason(e),
                _ => true,
            },
            Event::Linked => true,
        }
    }
}

fn link_complaint(name: &str, e: Option<String>) -> (r: String)
    ensures
        r@ == name@ + ": "@ + link_reason(e),
{
    let mut out = cat(name, ": ");
    match e {
        Some(e) => {
            out.append(e.as_str());
        },
        None => {
            out.append("unknown dlopen/dlsym error");
        },
    }
    out
}

/// Bringing up the device, stage by stage: perform what `stage` says and hand the
/// outcome to `advance`, until there is nothing left.
pub struct Setup {
    stages: Vec<Stage>,
    at: usize,
    attempt: usize,
}

impl Setup {
    pub closed spec fn wf(&self) -> bool {
        &&& self.stages@ == all_stages()
        &&& self.at <= self.stages@.len()
    }

    pub closed spec fn progress(&self) -> Progress {
        Progress { at: self.at as nat, attempt: self.attempt as nat }
    }

    /// Nothing done yet.
    pub fn new() -> (s: Setup)
        ensures
            s.wf(),
            s.progress() == (Progress { at: 0, attempt: 0 }),
    {
        Setup { stages: stages(), at: 0, attempt: 0 }
    }

    /// What to do next; nothing where the device is ready.
    pub fn stage(&self) -> (r: Option<Stage>)
        requires
            self.wf(),
        ensures
            r == if self.progress().at < all_stages().len() {
                Some(all_stages()[self.progress().at as int])
            } else {
                None
            },
    {
        if self.at < self.stages.len() {
            Some(self.stages[self.at])
        } else {
            None
        }
    }

    /// How often the library to open has been tried.
    pub fn attempt(&self) -> (n: usize)
        ensures
            n == self.progress().attempt,
    {
        self.attempt
    }

    /// Take in how the stage came out.
    pub fn advance(&mut self, e: Event) -> (o: Outcome)
        requires
            old(self).wf(),
            old(self).progress().at < all_stages().len(),
            possible(all_stages()[old(self).progress().at as int], e),
        ensures
            final(self).wf(),
            final(self).progress() == progressed(old(self).progress(), e),
            comes_of(
                all_stages()[old(self).progress().at as int],
                old(self).progress().attempt,
                e,
                o,
            ),
    {
        let s = self.stages[self.at];
        let attempt = self.attempt;
        match e {
            Event::Linked => {
                self.at += 1;
                self.attempt = 0;
                Outcome::Going
            },
            Event::NotLinked(e) => match s {
                Stage::Open(lib) => {
                    if attempt == 0 {
                        self.attempt = 1;
                        return Outcome::Going;
                    }
                    Outcome::Failed(link_complaint(lib.name(attempt), e))
                },
                Stage::Resolve(entry) => Outcome::Failed(link_complaint(entry.name(), e)),
                _ => Outcome::Going,
            },
            Event::Returned(code) => {
                let ignored = match s {
                    Stage::SetStreams => true,
                    _ => false,
                };
                if code == 0 || ignored {
                    self.at += 1;
                    self.attempt = 0;
                    return Outcome::Going;
                }
                let n = signed_decimal(code);
                match s {
                    Stage::Init => Outcome::Unavailable(code),
                    Stage::LoadModule => Outcome::NotLoaded(code),
                    Stage::CreateBlas => Outcome::Failed(
                        cat("cublasCreate_v2 failed: ", n.as_str()),
                    ),
                    Stage::CreateStream => Outcome::Failed(
                        cat("cudaStreamCreate failed: ", n.as_str()),
                    ),
                    Stage::Find(k) => {
                        let mut out = cat("cuModuleGetFunction(", k.name());
                        out.append(") failed: ");
                        out.append(n.as_str());
                        Outcome::Failed(out)
                    },
                    _ => Outcome::Going,
                }
            },
        }
    }
}

/// Say that the kernel image would not load.
pub fn module_failure(code: i32, d: &Option<Device>) -> (r: String)
    ensures
        r@ == "cuModuleLoadData failed: "@ + signed_dec(code as int) + device_text(*d),
{
    let mut out = cat("cuModuleLoadData failed: ", signed_decimal(code).as_str());
    out.append(device_note(d).as_str());
    out
}

/// Every kernel that a call can run is looked up before the device is ready.
pub proof fn kernels_are_found(k: Kernel)
    ensures
        all_stages().contains(Stage::Find(k)),
{
    let ks = kernels();
    let i: int = match k {
        Kernel::Im2col => 0,
        Kernel::ConvTranspose => 1,
        Kernel::BnRelu => 2,
        Kernel::Relu => 3,
        Kernel::Sigmoid => 4,
        Kernel::AddInplace => 5,
        Kernel::Scale => 6,
        Kernel::ReflectPad => 7,
        Kernel::Avgpool2x2 => 8,
        Kernel::CopyPlane => 9,
        Kernel::SpecPack => 10,
        Kernel::SpecUnpack => 11,
        Kernel::CplxRealScale => 12,
        Kernel::ConvtCol => 13,
        Kernel::ConvtPut => 14,
        Kernel::BiasPlane => 15,
        Kernel::Conv7x7 => 16,
        Kernel::BnReluAdd => 17,
    };
    assert(ks[i] == k);
    assert(all_stages()[opening().len() + i] == Stage::Find(k));
}

/// Where a run of events leads.
pub open spec fn led_to(events: Seq<Event>) -> Progress
    decreases events.len(),
{
    if events.len() == 0 {
        Progress { at: 0, attempt: 0 }
    } else {
        progressed(led_to(events.drop_last()), events.last())
    }
}

/// An event is the success of a stage: what was to be linked is there, or the call
/// returned zero. Setting the streams succeeds whatever is returned.
pub open spec fn succeeds(s: Stage, e: Event) -> bool {
    match s {
        Stage::Open(_) | Stage::Resolve(_) => e is Linked,
        Stage::SetStreams => e is Returned,
        _ => e == Event::Returned(0),
    }
}

/// The events up to `i` led to a stage, and the one at `i` is its success.
pub open spec fn succeeds_at(events: Seq<Event>, at: nat, i: int) -> bool {
    &&& 0 <= i < events.len()
    &&& led_to(events.take(i)).at == at
    &&& succeeds(all_stages()[at as int], events[i])
}

/// The device is ready only when every stage has succeeded, each in its turn: no stage
/// is passed over, and none counts that failed.
pub proof fn ready_when_all_succeeded(events: Seq<Event>, at: nat)
    requires
        at < led_to(events).at <= all_stages().len(),
        forall|i: int|
            0 <= i < events.len() ==> possible(
                all_stages()[led_to(events.take(i)).at as int],
                #[trigger] events[i],
            ),
    ensures
        exists|i: int| #[trigger] succeeds_at(events, at, i),
    decreases events.len(),
{
    let before = events.drop_last();
    let n = before.len() as int;
    assert(events.take(n) =~= before);
    let p = led_to(before);
    assert(possible(all_stages()[p.at as int], events[n]));
    if p.at == at {
        assert(succeeds_at(events, at, n));
    } else {
        assert forall|i: int| 0 <= i < before.len() implies possible(
            all_stages()[led_to(before.take(i)).at as int],
            #[trigger] before[i],
        ) by {
            assert(before.take(i) =~= events.take(i));
            assert(before[i] == events[i]);
        }
        ready_when_all_succeeded(before, at);
        let i = choose|i: int| #[trigger] succeeds_at(before, at, i);
        assert(before.take(i) =~= events.take(i));
        assert(succeeds_at(events, at, i));
    }
}

/// A library that is not there under its first name is tried under its second, and
/// where it is there under neither, the failure names the second.
pub proof fn libraries_are_tried_twice(p: Progress, lib: Lib, e: Option<String>, o: Outcome)
    requires
        p.at < all_stages().len(),
        all_stages()[p.at as int] == Stage::Open(lib),
        p.attempt <= 1,
        comes_of(Stage::Open(lib), p.attempt, Event::NotLinked(e), o),
    ensures
        progressed(p, Event::NotLinked(e)) == (Progress { at: p.at, attempt: 1 }),
        p.attempt == 0 ==> o is Going,
        p.attempt == 1 ==> (o matches Outcome::Failed(m) && lib_name(lib, 1).is_prefix_of(m@)),
        lib_name(lib, 0) != lib_name(lib, 1),
{
    second_name_has_no_version(lib);
    reveal_strlit(".");
    let (long, short) = (lib_name(lib, 0), lib_name(lib, 1));
    assert((short + "."@).len() <= long.len());
    if let Outcome::Failed(m) = o {
        if p.attempt == 1 {
            assert(m@.take(short.len() as int) =~= short);
        }
    }
}

/// A stage is the one at `i`.
pub open spec fn is_at(s: Stage, i: int) -> bool {
    0 <= i < all_stages().len() && all_stages()[i] == s
}

/// Both stages come, `a` before `b`.
pub open spec fn precedes(a: Stage, b: Stage) -> bool {
    exists|i: int, j: int| #[trigger] is_at(a, i) && #[trigger] is_at(b, j) && i < j
}

/// Whether a stage calls an entry point.
pub open spec fn calls(s: Stage, e: Entry) -> bool {
    match s {
        Stage::Init => e == Entry::CuInit,
        Stage::CreateBlas => e == Entry::CublasCreate,
        Stage::CreateStream => e == Entry::StreamCreate,
        Stage::LoadModule => e == Entry::ModuleLoadData,
        Stage::SetStreams => e == Entry::CublasSetStream || e == Entry::CufftSetStream,
        Stage::Find(_) => e == Entry::ModuleGetFunction,
        _ => false,
    }
}

/// The place of an entry point among the stages.
spec fn place(e: Entry) -> int {
    match e {
        Entry::CuInit => 1,
        Entry::CublasCreate => 6,
        Entry::StreamCreate => 8,
        Entry::ModuleLoadData => 10,
        Entry::ModuleGetFunction => 12,
        Entry::Malloc => 13,
        Entry::Free => 14,
        Entry::Memcpy => 15,
        Entry::StreamSynchronize => 16,
        Entry::GetErrorString => 17,
        Entry::LaunchKernel => 18,
        Entry::CublasSetStream => 19,
        Entry::CublasSgemm => 20,
        Entry::CufftPlanMany => 21,
        Entry::CufftSetStream => 22,
        Entry::CufftExecR2C => 23,
        Entry::CufftExecC2R => 24,
    }
}

/// Every entry point is looked for, after the library that it is in has been opened.
pub proof fn libraries_come_before_their_entries(e: Entry)
    ensures
        precedes(Stage::Open(entry_lib(e)), Stage::Resolve(e)),
{
    let i: int = match entry_lib(e) {
        Lib::Driver => 0,
        Lib::Cudart => 3,
        Lib::Cublas => 4,
        Lib::Cufft => 5,
    };
    assert(is_at(Stage::Open(entry_lib(e)), i));
    assert(is_at(Stage::Resolve(e), place(e)));
}

/// Every stage that calls an entry point comes after that was found, a kernel is looked
/// for after the image was loaded, and the streams are set after there is a stream and
/// a BLAS handle.
pub proof fn stages_have_what_they_call(s: Stage, e: Entry)
    requires
        calls(s, e),
    ensures
        precedes(Stage::Resolve(e), s),
        s is Find ==> precedes(Stage::LoadModule, s),
        s is SetStreams ==> precedes(Stage::CreateStream, s) && precedes(Stage::CreateBlas, s),
{
    assert(is_at(Stage::Resolve(e), place(e)));
    match s {
        Stage::Init => {
            assert(is_at(s, 2));
        },
        Stage::CreateBlas => {
            assert(is_at(s, 7));
        },
        Stage::CreateStream => {
            assert(is_at(s, 9));
        },
        Stage::LoadModule => {
            assert(is_at(s, 11));
        },
        Stage::SetStreams => {
            assert(is_at(s, 25));
            assert(is_at(Stage::CreateBlas, 7));
            assert(is_at(Stage::CreateStream, 9));
        },
        Stage::Find(k) => {
            kernels_are_found(k);
            let j = choose|j: int| 0 <= j < all_stages().len() && all_stages()[j] == s;
            assert(is_at(s, j));
            assert(j >= opening().len());
            assert(is_at(Stage::LoadModule, 11));
        },
        _ => {},
    }
}

/// No other library is opened before the driver is initialised.
pub proof fn driver_comes_up_first(lib: Lib, i: int)
    requires
        lib != Lib::Driver,
        is_at(Stage::Open(lib), i),
    ensures
        exists|j: int| j < i && #[trigger] is_at(Stage::Init, j),
{
    assert(is_at(Stage::Init, 2));
    assert(opening()[0] == Stage::Open(Lib::Driver));
}

/// The symbol of an entry point starts with the prefix of its library, and that of no
/// other but the driver's, which all start with.
pub proof fn symbols_tell_their_library(e: Entry)
    ensures
        "cuda"@.is_prefix_of(entry_symbol(e)) <==> entry_lib(e) == Lib::Cudart,
        "cublas"@.is_prefix_of(entry_symbol(e)) <==> entry_lib(e) == Lib::Cublas,
        "cufft"@.is_prefix_of(entry_symbol(e)) <==> entry_lib(e) == Lib::Cufft,
        "cu"@.is_prefix_of(entry_symbol(e)),
{
    reveal_strlit("cu");
    reveal_strlit("cuda");
    reveal_strlit("cublas");
    reveal_strlit("cufft");
    reveal_strlit("cuInit");
    reveal_strlit("cublasCreate_v2");
    reveal_strlit("cudaStreamCreate");
    reveal_strlit("cuModuleLoadData");
    reveal_strlit("cuModuleGetFunction");
    reveal_strlit("cudaMalloc");
    reveal_strlit("cudaFree");
    reveal_strlit("cudaMemcpy");
    reveal_strlit("cudaStreamSynchronize");
    reveal_strlit("cudaGetErrorString");
    reveal_strlit("cuLaunchKernel");
    reveal_strlit("cublasSetStream_v2");
    reveal_strlit("cublasSgemm_v2");
    reveal_strlit("cufftPlanMany");
    reveal_strlit("cufftSetStream");
    reveal_strlit("cufftExecR2C");
    reveal_strlit("cufftExecC2R");
    let s = entry_symbol(e);
    assert(s.len() >= 6);
    assert("cu"@ =~= s.take(2));
    if entry_lib(e) == Lib::Cudart {
        assert("cuda"@ =~= s.take(4));
    } else {
        assert("cuda"@[2] != s[2] || "cuda"@[3] != s[3]);
    }
    if entry_lib(e) == Lib::Cublas {
        assert("cublas"@ =~= s.take(6));
    } else {
        assert("cublas"@[2] != s[2]);
    }
    if entry_lib(e) == Lib::Cufft {
        assert("cufft"@ =~= s.take(5));
    } else {
        assert("cufft"@[2] != s[2]);
    }
}

/// A library is tried first under a name with a version behind it, and then without.
pub proof fn second_name_has_no_version(lib: Lib)
    ensures
        (lib_name(lib, 1) + "."@).is_prefix_of(lib_name(lib, 0)),
        ends_in(lib_name(lib, 1), ".so"@),
{
    reveal_strlit(".");
    reveal_strlit(".so");
    reveal_strlit("libcuda.so.1");
    reveal_strlit("libcuda.so");
    reveal_strlit("libcudart.so.12");
    reveal_strlit("libcudart.so");
    reveal_strlit("libcublas.so.12");
    reveal_strlit("libcublas.so");
    reveal_strlit("libcufft.so.11");
    reveal_strlit("libcufft.so");
    let (long, short) = (lib_name(lib, 0), lib_name(lib, 1));
    assert(short + "."@ =~= long.take(short.len() as int + 1));
    assert(short.skip(short.len() - 3) =~= ".so"@);
}

/// A text has an end.
pub open spec fn ends_in(s: Seq<char>, end: Seq<char>) -> bool {
    s.len() >= end.len() && s.skip(s.len() - end.len()) == end
}

/// Only the first line of the version file counts.
pub proof fn later_lines_do_not_count(line: Seq<char>, rest: Seq<char>)
    requires
        !line.contains('\n'),
    ensures
        module_version(line + seq!['\n'] + rest) == module_version(line),
{
    let text = line + seq!['\n'] + rest;
    crate::text::find_char_is_first(text, '\n', 0);
    crate::text::find_char_is_first(line, '\n', 0);
    assert(text[line.len() as int] == '\n');
    assert forall|k: int| 0 <= k < line.len() implies text[k] != '\n' by {
        assert(text[k] == line[k]);
        assert(line.contains(line[k]));
    }
    assert(text.take(line.len() as int) =~= line);
    if let Some(i) = find_char(line, '\n', 0) {
        assert(line.contains(line[i]));
    }
}

/// The step that `LAMA_DUMP_STEP` names, if its value is a number.
pub fn dump_step(v: &str) -> (r: Option<usize>)
    ensures
        r.is_some() == reads_as_usize(v@),
        r matches Some(n) ==> n == digits_value(unsigned_digits(v@)),
{
    match parse_usize(v) {
        Ok(n) => Some(n),
        Err(_) => None,
    }
}

} // verus!
