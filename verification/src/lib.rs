//! Gene annotation records read from BED, BED12 and refFlat lines, with the
//! coordinate arithmetic between genome and spliced transcript positions.

pub mod bed;
pub mod bed12;
pub mod blocks;
pub mod cds;
pub mod error;
pub mod number;
pub mod sequence;
pub mod source;
pub mod strand;
pub mod text;
pub mod transcriptome;
