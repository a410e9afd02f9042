//! Choosing which example program to run from a console line: the catalog
//! listing, the reading of a line as a position or a name, and the messages
//! shown when nothing matches.

pub mod decimal;
pub mod selector;
