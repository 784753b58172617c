//! A terminal installer that installs nothing: the transcript parsing, line
//! classification and disk-defragmenter simulation behind it, with their
//! contracts.

pub mod log_corpus;
pub mod random;
pub mod stages;
pub mod text;
pub mod ui;
