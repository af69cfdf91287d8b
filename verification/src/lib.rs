//! Reading and writing the text files of a UFO font without a file system.

pub mod decode;
pub mod directive;
pub mod directive_laws;
pub mod error;
pub mod expand;
pub mod expand_laws;
pub mod font;
pub mod laws;
pub mod line_ends;
pub mod load;
pub mod load_laws;
pub mod memory;
pub mod names;
pub mod ordered_map;
pub mod path;
pub mod path_laws;
pub mod plan_laws;
pub mod save;
pub mod save_laws;
pub mod sink;
pub mod source;
pub mod text;
pub mod text_laws;
