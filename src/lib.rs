// The editing core of a modal text editor: positions and buffers with their
// edit history, multi-cursor views and motions, the command parser, the
// fuzzy picker, the INI reader and the debugger protocol codec.

pub mod bytes;
pub mod position;
pub mod history;
pub mod buffer;
pub mod cursor;
pub mod word;
pub mod buffer_view;
pub mod command;
pub mod ini;
pub mod picker;
pub mod protocol;
