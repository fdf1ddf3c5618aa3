//! Speaker embeddings.

pub mod band_laws;
pub mod dot_laws;
pub mod error;
pub mod fbank;
pub mod fbank_laws;
pub mod fbank_means;
pub mod frame_laws;
pub mod laws;
pub mod layout_laws;
pub mod mel;
pub mod mel_laws;
pub mod norm_laws;
pub mod options;
pub mod similarity;
pub mod types;
pub mod unit_norm;

pub use error::Error;
pub use fbank::{compute_fbank, compute_full_fbank, Complex, FbankTables};
pub use options::{
    EmbedModelOptions, OptimizationLevel, EMBEDDING_DIM, EMBED_WINDOW_SAMPLES, FBANK_FRAMES,
    FBANK_NUM_MELS, HOP_SAMPLES, MIN_CLIP_SAMPLES, NORM_EPSILON, SAMPLE_RATE_HZ,
};
pub use types::{cosine_similarity, Embedding, EmbeddingMeta, EmbeddingResult};
