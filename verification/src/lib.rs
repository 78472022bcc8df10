//! Turin: guided tours of a codebase.

pub mod anchor;
pub mod cli;
pub mod cmd;
pub mod frontmatter;
pub mod highlight;
pub mod input;
pub mod layout;
pub mod play;
pub mod screen;
pub mod source;
pub mod stop;
pub mod style;
pub mod text;
pub mod tour;
pub mod util;
