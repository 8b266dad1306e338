//! Verified core of a markdown note-graph editor: line-level markdown
//! tokenizing, block classification, frontmatter, wikilinks, undo history,
//! hit-testing and the small layout rules around them.

pub mod app_config;
pub mod strings;
pub mod editor;
pub mod filesystem;
pub mod fonts;
pub mod frontmatter;
pub mod global_palette;
pub mod graph;
pub mod sidebar;
