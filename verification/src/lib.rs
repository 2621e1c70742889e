//! Streaming, error-tolerant JSON extraction from tagged LLM output, and the
//! WAIL schema language helpers that describe what the output should look like.

pub mod text;
pub mod json_types;
pub mod json_tok;
pub mod json_sax_scanner;
pub mod tag_finder;
pub mod json_scalars;
pub mod json_parser;
pub mod types;
pub mod template_parser;
pub mod parser_types;
pub mod python_types;
pub mod type_string_parser;
pub mod wail_parser;
pub mod wail_repair;
pub mod wail_grammar;
pub mod stream_json_parser;
pub mod llm_output;
pub mod tag_set;
