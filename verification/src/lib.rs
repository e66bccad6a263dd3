//! Verified core of a TPX3 mass-spectrometry-imaging pipeline: packet codec,
//! rollover-corrected pulse decoding, clustering and centroiding, spectrum
//! building, rasterization bookkeeping, and the spectral-archive writer state.
pub mod archive;
pub mod codec;
pub mod image;
pub mod decoder;
pub mod stage;
pub mod hit;
pub mod mass;
pub mod pixel;
pub mod pulse;

