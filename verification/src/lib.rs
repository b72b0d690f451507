//! Summarises a working tree's change status as a commit-message line.
//!
//! The library is a pipeline of two stages. [`parser`] reads the short,
//! NUL-separated status report of the version-control tool into a
//! [`changes::ChangeSet`]; [`render`] writes a change set as the summary
//! text. [`message`] joins the two and shapes the text that is printed or
//! written in front of a message file.
//!
//! Every function is stated against a mathematical model: a text is a
//! sequence of characters, a change set is four counted lists of names.
pub mod changes;
pub mod message;
pub mod parser;
pub mod render;
pub mod std_text;
pub mod text;
