mod bignat;

pub mod fft_sizes;
pub mod ring_buffer;
pub mod spectral_decay;

pub use crate::fft_sizes::generate_sizes;
pub use crate::ring_buffer::RingBuffer;
pub use crate::spectral_decay::{SpectralDecay, SpectralDecayParameters, PARAM_SCALE};
