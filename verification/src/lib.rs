//! A visual bag-of-words vocabulary over binary feature descriptors.
//!
//! A `Vocabulary` is a tree built by recursive hierarchical k-means
//! clustering in Hamming space. Once built it maps any batch of
//! descriptors to a sparse word histogram (a bag of words) and,
//! on request, to a direct index recording the tree path each
//! descriptor took.

pub mod bow;
pub mod builder;
pub mod codec;
pub mod desc;
pub mod load_fow;
mod rng;
pub mod vocab;

pub use bow::BoW;
pub use bow::Similarity;
pub use desc::hamming;
pub use desc::Desc;
pub use vocab::BowErr;
pub use vocab::DirectIdx;
pub use vocab::Vocabulary;
