//! Reading and writing the `.clstr` cluster reports of the CD-HIT suite.
//!
//! A `.clstr` file is a list of clusters: each starts with a `>Cluster N`
//! header line, followed by one line per member sequence, such as
//! `0    4481aa, >sp|P0C6T5|R1A_BCHK5... at 99.89%`.
pub mod text;
pub mod number;
pub mod error;
pub mod record;
pub mod cluster;
pub mod writer;
pub mod parser;
pub mod select;
pub mod laws;
pub mod roundtrip;
pub mod naming;

pub use crate::cluster::{Cluster, ClusterAssembler};
pub use crate::error::{Error, ErrorKind};
pub use crate::naming::cluster_file_stem;
pub use crate::number::Identity;
pub use crate::parser::{ClstrParser, from_reader};
pub use crate::record::{Sequence, parse_sequence_line};
pub use crate::select::{filter_by_size, top_n};
pub use crate::writer::ClstrWriter;
