//! A verified codec for the bencode serialization format: a decoder that
//! parses a byte buffer into a typed item tree and an encoder that serializes
//! such a tree back to canonical bencode bytes.

mod decode;
mod encode;
mod error;
mod items;
mod laws;

pub use decode::{
    all_digits, digits_value, fits_i64, int_text_ok, int_text_value, is_digit,
    leading_zeros_text, lemma_digits_value_nonneg, lemma_digits_value_prefix_le,
    lemma_digits_value_step, lemma_find_found, lemma_find_none, lemma_find_props,
    lemma_parse_dict_pairs_progress, lemma_parse_integer_progress, lemma_parse_item_progress,
    lemma_parse_list_items_progress, lemma_parse_string_progress, negative_zero_text,
    parse_i64, spec_decode, spec_find, spec_parse_all, spec_parse_dict,
    spec_parse_dict_pairs, spec_parse_i64, spec_parse_integer, spec_parse_item, spec_parse_list,
    spec_parse_list_items, spec_parse_string, Decoder, Settings,
};
pub use encode::{
    dec_digits, encode_dictionary_into, encode_item_into, encode_list_into, int_literal,
    lemma_spec_encode_pairs_concat, lemma_spec_encode_seq_concat, spec_encode, spec_encode_pairs,
    spec_encode_seq, string_encoding, Bencode,
};
pub use error::{DecodeError, ErrorKind};
pub use items::{
    keys_sorted, lemma_lex_lt_common_prefix, lemma_lex_lt_transitive, lemma_lex_lt_trichotomy,
    lemma_sorted_insert_split, lemma_view_items, lemma_view_pairs, lex_lt, sorted_insert, to_map,
    value_wf, view_items, view_pairs, BDictionary, BInteger, BList, BString, Item, Value,
};
pub use laws::{
    lemma_dec_digits_props, lemma_decode_wf, lemma_encode_deterministic, lemma_parse_encoded_at,
    lemma_parse_encoded_pairs, lemma_parse_encoded_seq, lemma_parse_int_literal,
    lemma_parse_integer_encoding, lemma_parse_item_wf, lemma_parse_string_encoding,
    lemma_round_trip, lemma_round_trip_sequence, lemma_spec_encode_first, lemma_to_map_sorted_id,
    lemma_to_map_wf,
};
