pub mod decimal;
pub mod keyed_map;
pub mod laws;
pub mod message;
pub mod message_parser;
pub mod message_processor;
pub mod parse_error;
pub mod processing_error;
pub mod round_trip;
pub mod text;
