//! The logic of a chat bot for a hackerspace, verified.
//!
//! A line of chat text is compiled into one [`user_input_compiler::Input`]
//! by a recursive-descent parser that reads from a character
//! [`cursor::Cursor`].  Each rule of the grammar is a spec function over
//! sequences of characters, and the parser of a rule is proved to return what
//! the rule prescribes; [`theorems`] holds what follows for every input.
//!
//! Around the compiler stand what the bot decides between two calls of its
//! transport ([`bot`]), what it tells of the status of the space
//! ([`spaceapi_client`]), the grammar as a text for users ([`grammar`]) and
//! values that expire ([`cached_value`]).  What is believed of the standard
//! library without proof is gathered in [`trusted`].

pub mod binary64;
pub mod bot;
pub mod cached_value;
pub mod cursor;
pub mod decimal;
pub mod digits;
pub mod grammar;
pub mod literal;
pub mod rounding;
pub mod selector;
pub mod spaceapi_client;
pub mod theorems;
pub mod trusted;
pub mod user_input_compiler;
pub mod user_settings;
