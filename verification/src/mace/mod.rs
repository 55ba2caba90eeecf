//! Diffusion Lenia computed on the host.

pub mod circle;
pub mod conservation;
pub mod convolution;
pub mod dynamics;
pub mod fft;
pub mod fourier;
pub mod inverse;
pub mod points;
pub mod setup;
pub mod shapes;
pub mod spectrum;
pub mod step;
pub mod sums;
