//! File-processing primitives: a streaming SHA-256 digest, a line-oriented
//! regular-expression scanner and a fixed-size chunk splitter.
//!
//! Every operation works on bytes handed to it by the caller, either in one
//! piece or block by block as a reader produces them.

mod digest;

pub use digest::{
    digest_bytes, hex_digit, hex_of, lemma_digest_deterministic, lemma_hex_len, sha256_of, to_hex,
    Hasher, BLOCK_SIZE,
};

mod chunk;

pub use chunk::{
    chunk_bytes, chunks_of, lemma_chunk_sizes, lemma_chunks_rejoin, lossy_text, numbered,
    split_bytes, Chunk, ChunkError, Chunker,
};

mod scan;

pub use scan::{
    all_found, found_in, is_substring, line_matches, match_texts, regex_source, regex_valid, scan_lines,
    texts, decoded, lemma_scan_no_patterns, newline_at, raw_lines, scan_bytes, strip_cr,
    PatternError, PatternSet, ScanError,
};
