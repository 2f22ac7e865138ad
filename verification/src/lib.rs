//! A small full-text search library for Japanese text: a word dictionary
//! interning word forms to dense integer identifiers, a forward index from
//! documents to word-id sets, an inverted index derived from it, and a
//! boolean query evaluator (AND / OR / NOT, parentheses, implicit
//! conjunction) over the resulting document sets.

mod docset;
mod index;
mod invert;
mod laws;
mod parser;
mod persist;
mod request;
mod respond;
mod seqs;
mod text;
mod words;

pub use docset::DocSet;
pub use index::{ids_distinct, resolved_forms, spec_doc_ids, ForwardIndex};
pub use index::{lemma_indexing_idempotent, lemma_resolved_forms_exact};
pub use invert::InvertedIndex;
pub use laws::{lemma_implicit_and, lemma_not_complement, lemma_or_associative};
pub use laws::{lemma_or_commutative, lemma_or_operand_order};
pub use parser::{at_and, at_lpar, at_not, at_or, at_rpar, spec_classify, spec_plain_tokens};
pub use parser::{classify_word, Parser, QueryError, QueryToken, SpecToken};
pub use persist::{digit_char, form_clean, line_ids, line_ok, line_path, lines_from, lines_ok};
pub use persist::{lemma_digits_props, lemma_matrix_round_trip, lemma_words_round_trip};
pub use persist::{parse_matrix, parse_u32, parse_words, serialize_matrix, serialize_words};
pub use persist::{path_clean, spec_digits, spec_is_digit, spec_is_number, spec_matrix_map};
pub use persist::{spec_num_of, spec_ser_ids, spec_ser_line, spec_ser_matrix_from, spec_ser_words};
pub use persist::{split_lines, strip_cr, u32_to_string, PersistError};
pub use request::{form_decoded_pairs, get_q, spec_first_q};
pub use respond::{component_after_slash, file_name_of, spec_is_white, spec_summary};
pub use respond::{spec_trim, spec_url_of, stem_of, strip_slashes};
pub use respond::{index_file_path, make_summary_text, trim_spaces, Responder, ResultFile};
pub use text::{replace_lf, spec_is_space, spec_split, split_from, split_query};
pub use words::{forms_distinct, spec_intern, spec_intern_all, WordDictionary};
