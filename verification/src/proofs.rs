//! What holds of the model of edits, as the functions of the library and
//! its laws need it.

pub mod apply;
pub mod builder;
pub mod cursor;
pub mod identity;
pub mod ties;
pub mod walk;
