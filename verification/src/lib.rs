//! A small dice-notation language: parse expressions such as `3d12 - 8 + 10d8`
//! into an arithmetic tree, evaluate them by simulating die rolls, and render
//! the tree back to a canonical textual form.
mod ast;
mod numerals;
mod parser;
mod roundtrip;

pub use ast::invalid_roll_definition;
pub use ast::lemma_dice_free_deterministic;
pub use ast::missing_operand;
pub use ast::Expr;
pub use ast::Expression;
pub use ast::ParseError;
pub use ast::ParseErrorKind;
pub use numerals::{dec_digits, dec_int, digit_char, digit_val, digits_num, is_digit};
pub use parser::{
    digit_end, is_space, roll, skip_ws, spec_parse_loop, spec_read_operand, spec_read_u32,
    spec_roll,
};
pub use roundtrip::{lemma_parse_chain, lemma_render_parse_identity, lemma_roundtrip};
