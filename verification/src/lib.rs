//! Indexing of ImageNet WebDataset shards: the verified core of a data pipeline that
//! turns tar shard listings into a labelled index, splits it, and lays out decoded pixels.

pub mod lexical;
pub mod naming;
pub mod dataset;
pub mod labels;
pub mod indexer;
pub mod pixels;
pub mod batch;
pub mod scan;
