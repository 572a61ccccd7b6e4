//! Verified core of a music source separation pipeline.
//!
//! Audio is cut into overlapping chunks, every chunk is run through a neural
//! network, and the separated chunks are cross-faded back into full-length
//! stems. This crate holds chunk geometry, buffer layouts, overlap-add,
//! sample-rate handling and the order in which a run takes its steps. The
//! network, the spectral transforms and the resampler are outside of it.
//!
//! The sample type is a parameter. Arithmetic on it is supplied through
//! [`Arithmetic`], and contracts speak of its results as relations.

pub mod arithmetic;
pub mod blocks;
pub mod chunk;
pub mod crossfade;
pub mod device;
pub mod error;
pub mod laws;
pub mod model;
pub mod order;
pub mod overlap;
pub mod pipelined_run;
pub mod rate;
pub mod recording;
pub mod repeat;
pub mod segment;
pub mod segment_run;
pub mod separation;
pub mod sequential_run;
pub mod step;

pub use arithmetic::Arithmetic;
pub use chunk::{chunk_bounds, num_chunks, CHUNK_STRIDE, TRAINING_LENGTH};
pub use error::{DemucsError, Result, Transfer};
pub use model::{ModelInfo, ModelOptions, Stem, StemId};
pub use overlap::{triangular_window, ChunkAccumulator};
pub use rate::{to_network_rate, to_source_rate, SAMPLE_RATE};
pub use recording::{finish_recording, start_recording};
pub use segment::{
    branch_lengths, decode_stem, frame_count, overlay, pad_channel, pad_segment, segment_input,
    segment_spectra, stem_channels, stems_from_segment, time_input, SegmentData, SegmentInput,
    StemChannels, FREQ_BINS, HOP_LENGTH, N_FFT,
};
pub use separation::{route, Route, SeparationRun};
pub use step::{ForwardEvent, Reply, Step};
