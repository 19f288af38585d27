//! Help-tag resolution for a chat bot: a message that starts with the trigger
//! `!h ` names a documentation tag, which is looked up in a table read from a
//! flat text file and answered with a documentation URL.

pub mod text;
pub mod order;
pub mod table;
pub mod tagfile;
pub mod resolve;
pub mod handler;
