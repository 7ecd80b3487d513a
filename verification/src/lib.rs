//! A small web-browser engine: an HTML tokenizer and tree builder, a CSS
//! parser, selector matching and style cascading.
pub mod text;
pub mod token;
pub mod strmap;
pub mod html_parser;
pub mod css_parser;
pub mod document;
pub mod layout;
pub mod paint;
