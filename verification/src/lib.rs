pub mod text;
pub mod lexer;
pub mod parser;
pub mod resolver;
pub mod symbols;
pub mod type_checker;
pub mod type_check;
pub mod utils;
pub mod ordering;
