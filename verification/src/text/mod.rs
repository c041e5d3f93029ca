pub mod chars;
pub mod digits;
pub mod utf8;
