//! The native builtin library: arithmetic, list and string and hashmap
//! construction, printing, and recursive parsing, plus the registry that
//! installs them into the root environment.

pub mod env;
pub mod hash;
pub mod list;
pub mod math;
pub mod printer;
pub mod reader;
pub mod string;
