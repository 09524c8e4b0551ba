//! Bloom filters over a search index: building one filter per segment, merging
//! the encoded filters, querying by an encoded filter, and the rules of the
//! source that feeds the index.
pub mod bloom_filter;
pub mod bloom_filter_collector;
pub mod bloom_might_contain_query;
pub mod encoding;
pub mod index_terms;
pub mod tail_sampling_kafka_source;
