//! DSP core of a software synthesizer with a spectral view: the index logic of an
//! iterative radix-2 FFT, frame padding, the ADSR stage machine, voice eviction for
//! the mixer and the ring buffer that feeds the analyser.

pub mod adsr;
pub mod complex;
pub mod fft;
pub mod mixer;
pub mod ui;
