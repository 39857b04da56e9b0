//! An owned ASCII byte-string type in the spirit of classic C string
//! handling: lexicographic comparison, `strtol`-style integer scanning
//! over a cursor, and `strtok`-style splitting at a delimiter byte.

pub mod byte_string;
pub mod cursor;
pub mod order;
pub mod scan;
pub mod split;

pub use byte_string::CString;
pub use cursor::Cursor;
pub use order::cstring_cmp;
