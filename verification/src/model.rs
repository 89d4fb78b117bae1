//! The plan of a generator: its steps, by the names of their weights.

use vstd::prelude::*;

verus! {

/// A convolution that a block may have.
pub enum ConvRef {
    Absent,
    /// Its name below the block's own.
    Present { name: String },
}

/// A fast Fourier convolution with its normalisation.
pub struct FfcBlock {
    /// The number of the module it stands in.
    pub index: usize,
    /// Its place there: 0 for the module itself, 1 and 2 for the convolutions of a
    /// residual block.
    pub sub: usize,
    pub kernel: usize,
    pub stride: usize,
    pub pad: usize,
    pub reflection: bool,
    pub in_local: usize,
    pub in_global: usize,
    pub out_local: usize,
    pub out_global: usize,
    pub l2l: ConvRef,
    pub l2g: ConvRef,
    pub g2l: ConvRef,
    /// Whether there is a spectral branch.
    pub g2g: bool,
    pub bn_local: bool,
    pub bn_global: bool,
}

/// Two convolutions around which the input is added back.
pub struct ResBlock {
    pub conv1: FfcBlock,
    pub conv2: FfcBlock,
}

/// A transposed convolution with the normalisation that follows it.
pub struct Upsample {
    pub index: usize,
    pub bn_index: usize,
    pub cout: usize,
}

/// The closing convolution.
pub struct OutConv {
    pub index: usize,
}

pub enum Step {
    ReflectPad(usize),
    Ffc(FfcBlock),
    ResBlock(ResBlock),
    Concat,
    Upsample(Upsample),
    OutConv(OutConv),
}

/// A generator, step by step.
pub struct Model {
    pub steps: Vec<Step>,
}

} // verus!
