//! Aggregation of overlapping chunks onto the output frame grid.
//!
//! Chunk `c` of the input starts at output frame
//! `round(c * chunk_step / frame_step)`; its frames follow one by one. The count
//! tensor averages, per output frame, the number of active speakers that the
//! covering chunks saw; the Hamming aggregate sums window-weighted values.

pub mod count;
pub mod exact_laws;
pub mod hamming;
pub mod hamming_laws;
pub mod laws;


pub use count::{
    count_pyannote, num_output_frames_pyannote, try_count_pyannote, try_num_output_frames_pyannote,
    CountTensor, Error, ShapeError, MAX_OUTPUT_FRAMES,
};
pub use hamming::{hamming_aggregate, try_hamming_aggregate};
