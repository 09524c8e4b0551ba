# bloom_search

Bloom filters over a search index, verified with Verus.

- `src/encoding.rs`: the bytes of an encoded Bloom filter and the laws of overlaying
  encodings.
- `src/bloom_filter.rs`: the filters of the `bloomfilter` crate, with the contracts that
  the library relies on.
- `src/bloom_filter_collector.rs`: one filter per segment, and merging filters.
- `src/index_terms.rs`: terms as bytes (`tantivy`) and base64 (`base64`), with the
  contracts that the library relies on.
- `src/bloom_might_contain_query.rs`: the query by an encoded filter.
- `src/tail_sampling_kafka_source.rs`: the rules of the source that feeds the index.
- `app/`: the index and the runtime around the library. The size of a bitmap for a rate
  of false positives is computed there, in floating point.

Two filters can be merged without losing members if they have the same header, that
is the same size, number of hash functions and seed.
