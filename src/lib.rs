//! Storage, query, aggregation and normalisation of Hi-C contact matrices:
//! bin tables and per-row offset indexes, range queries over the
//! upper-triangular pixel store of a symmetric matrix, binning of contact
//! pairs, aggregation of a resolution into a coarser one, the integer stages
//! of balancing, and the small sequence and alignment types around them.
pub mod selector;
pub mod bins;
pub mod pixels;
pub mod builders;
pub mod utils;
pub mod errors;
pub mod res_group;
pub mod matrix;
pub mod cigar;
pub mod sequence;
pub mod gfa;
pub mod convertor;
pub mod balancer;
