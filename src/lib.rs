// A tokenizer for a small scripting language, with its behaviour stated as
// spec functions over character sequences and proved of the code.
pub mod lexer;
pub mod number;
pub mod text;
pub mod theorems;
