//! A directive-oriented configuration parsing library.
//!
//! Configuration text of the form `<name> { <directive>* }` is broken apart
//! by a stack-based tokenizer ([`config_parser::ConfigParser`]) driven by a
//! pure state-transition table ([`parser_state::ParserState`]).  Single lines
//! of live-system output are split by a quote-aware line tokenizer and each
//! raw directive is classified into a typed parameter ([`jls`]).  Classified
//! parameters are aggregated into a name-indexed configuration
//! ([`configuration::Configuration`]); raw directive lines can further be
//! folded into keyed values, including `+=` and comma-separated list values
//! ([`values`]).

pub mod config;
pub mod config_item;
pub mod config_parser;
pub mod configuration;
pub mod jls;
pub mod parser_state;
pub mod str_map;
pub mod text;
pub mod values;
