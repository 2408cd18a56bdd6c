pub mod cursor;
pub mod value;
pub mod parse;
