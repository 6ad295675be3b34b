//! Verified core of a hosts-file editor.
//!
//! The library turns raw hosts-file text into a line-level model, aggregates
//! the lines into user-facing items (one IP with its host names, split by
//! enabled state and named group), and regenerates text from an edited item
//! list while reusing the original line structure.

pub mod aggregate;
pub mod command;
pub mod groups;
pub mod ip;
pub mod laws;
pub mod model;
pub mod ordmap;
pub mod parse;
pub mod render;
pub mod synth;
pub mod text;

pub use aggregate::lines_to_list;
pub use command::{get_groups, update_text_by_list, GroupDTO};
pub use groups::text_to_groups;
pub use ip::is_ip;
pub use model::{Group, Host, Item, Line};
pub use parse::text_to_lines;
pub use render::lines_to_text;
pub use synth::{hosts_chunk, list_to_lines, list_to_text};
