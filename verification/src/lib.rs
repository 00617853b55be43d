//! Candidate generation for entity resolution over bibliographic records.
//!
//! Records are grouped into overlapping blocks by the character shingles of
//! one text field, and only the pairs of records that meet in a block are
//! scored, by the normalized edit distance of a second field.

pub mod error;
pub mod index;
pub mod normalize;
pub mod ordered_map;
pub mod record;
pub mod scorer;
pub mod shingle;
pub mod similarity;

pub use error::{ConfigurationError, ConsistencyError};
pub use index::{build_index, reverse_index, BlockIndex};
pub use normalize::{clean_split_text, split_on_commas, trim};
pub use record::{Field, Record, RecordSet};
pub use scorer::{score_block, score_blocks, score_blocks_by, CandidateScore};
pub use shingle::{shingle_tokens, shingles, tokenize, ShingleSet};
pub use similarity::{score_lev_distance, Similarity};
