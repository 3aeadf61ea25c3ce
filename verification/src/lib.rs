pub mod codec;
pub mod index;
pub mod lexer;
pub mod model;
pub mod rank;
pub mod text;
