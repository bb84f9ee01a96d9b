//! Renders one variant of a template whose text is gated by tags.
//!
//! A template is plain text with directives written between `#{` and `}`:
//! `#{if(tag)}` opens a region that is shown only while `tag` is active,
//! `#{end}` and `#{end(tag)}` close regions, `#{nop}` does nothing.
//! [`Processor::process_text`] renders a template for a [`Settings`] value,
//! the set of active tags.

pub mod chars;
pub mod directive;
pub mod laws;
pub mod model;
pub mod text_processor;

pub use directive::ErrorKind;
pub use text_processor::{ParseState, ProcessError, Processor, Settings, State, TextPos};
