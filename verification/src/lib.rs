//! Verified decoding for Parakeet speech recognition models.
//!
//! The decoders of this crate (RNN-T, TDT and CTC beam search, TDT greedy
//! search) read IEEE 754 single-precision scores. A single is held here by its
//! bit pattern, so comparisons are ordinary integer logic; see [`single`]. The
//! arithmetic on singles is handed in by the caller through
//! [`arithmetic::Arithmetic`], and so is the neural network, as a callback.
//! Every contract speaks of what those callbacks returned, and assumes nothing
//! of them.
pub mod arithmetic;
pub mod arithmetic_laws;
pub mod decoding;
pub mod error;
pub mod execution;
pub mod metrics;
pub mod model_laws;
pub mod model_tdt;
pub mod ranking;
pub mod rounding;
pub mod single;
pub mod single_valued;
pub mod tensor;
pub mod text;
pub mod text_laws;

pub use single::Bits;
