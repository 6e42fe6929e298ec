pub mod text;
pub mod field_ref;
pub mod query_lexer;
pub mod query_parse_error;
pub mod query;
pub mod query_parser;
pub mod set;
pub mod token;
pub mod pipeline;
pub mod trimmer;
pub mod stop_word_filter;
pub mod stemmer;
pub mod token_set;
pub mod token_set_pattern;
pub mod token_set_walk;
pub mod token_set_intersect;
pub mod token_set_builder;
pub mod token_set_fuzzy;
pub mod utils;
pub mod document;
pub mod match_data;
pub mod search;
pub mod inverted_index;
pub mod serialized;
pub mod builder;
pub mod load;
pub mod results;
