//! The text rules of a small note-taking tool, verified.
//!
//! The heart of the library is the clipboard pipeline: the HTML is taken out
//! of the clipboard's rich payload and handed out for conversion
//! ([`clipper`]), and what the converter returns is normalized
//! ([`normalize`], with what holds of it in [`normal_form`]). Around it stand
//! the rules that describe a note ([`storage`]), what the note commands
//! compute ([`commands`]) and what an export writes ([`export`]). All of them
//! work on the characters of a text ([`text`]).
//!
//! Nothing here reads or writes a clipboard, a file or a window, and nothing
//! here converts HTML: callers hand in what they read, carry out what comes
//! back, and hand in what the converter made of the HTML.

pub mod clipper;
pub mod commands;
pub mod export;
pub mod normal_form;
pub mod normalize;
pub mod storage;
pub mod text;
