//! A compact string value that keeps the first bytes of its content inline,
//! so that equality and prefix tests reject most mismatches without reading
//! the heap.

mod fast_str;
mod laws;

pub use fast_str::{
    debug_line, decimal, digit, heap_len, inline_room, StartsWithStr, Str, StrError, MAX_LEN,
    PREFIX_LENGTH,
};
pub use laws::{
    lemma_empty_prefix, lemma_from_text_eq, lemma_from_text_index, lemma_from_text_prefix,
    lemma_from_text_round_trip, lemma_starts_with_self,
};
