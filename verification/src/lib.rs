//! Reading of the manual pages of a POSIX system: the name, the description
//! and the options of each command, from both the BSD `mdoc` dialect and the
//! GNU `man` dialect.

pub mod text;
pub mod reader;
pub mod mans;
pub mod laws;
pub mod lines;
