//! Core of a minimal single-document text editor.
//!
//! The library models the document content (lines of text plus a cursor),
//! the closed set of edit actions that mutate it, and the message-driven
//! state machine that owns the document and the last load error. File
//! reading and the native file dialog are left to the surrounding program;
//! the library classifies their plain outcomes into messages.

pub mod document;
pub mod editor;
